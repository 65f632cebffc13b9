//! Node identifiers: paths of octant selectors from the root of the tree.

use vstd::prelude::*;
use vstd::string::StringSliceAdditionalSpecFns;

verus! {

/// One of the eight octants of a cube. Bit 2 bisects the x axis, bit 1 the
/// y axis and bit 0 the z axis; a set bit selects the upper half.
#[derive(Clone, Copy, Debug)]
pub struct ChildIndex {
    index: u8,
}

impl View for ChildIndex {
    type V = int;

    closed spec fn view(&self) -> int {
        self.index as int
    }
}

impl ChildIndex {
    #[verifier::type_invariant]
    spec fn in_range(self) -> bool {
        self.index < 8
    }

    /// The octant with the given number, which must be below eight.
    pub fn from_u8(index: u8) -> (r: ChildIndex)
        requires
            index < 8,
        ensures
            r@ == index,
    {
        ChildIndex { index }
    }

    /// The octant's number, from 0 to 7.
    pub fn as_u8(&self) -> (r: u8)
        ensures
            r == self@,
            r < 8,
    {
        proof {
            use_type_invariant(self);
        }
        self.index
    }

    /// Whether the octant lies in the upper half of the x axis.
    pub fn upper_x(&self) -> (r: bool)
        ensures
            r == (self@ >= 4),
    {
        self.index >= 4
    }

    /// Whether the octant lies in the upper half of the y axis.
    pub fn upper_y(&self) -> (r: bool)
        ensures
            r == (self@ % 4 >= 2),
    {
        self.index % 4 >= 2
    }

    /// Whether the octant lies in the upper half of the z axis.
    pub fn upper_z(&self) -> (r: bool)
        ensures
            r == (self@ % 2 == 1),
    {
        self.index % 2 == 1
    }
}

/// A path holds octant numbers only.
pub open spec fn valid_path(path: Seq<u8>) -> bool {
    forall|i: int| 0 <= i < path.len() ==> #[trigger] path[i] < 8
}

/// The canonical name of a path: the letter `r`, then one digit per level.
pub open spec fn name_of(path: Seq<u8>) -> Seq<u8> {
    seq![114u8] + Seq::new(path.len(), |i: int| (path[i] + 48) as u8)
}

/// Whether `name` is the canonical name of some path.
pub open spec fn is_name(name: Seq<u8>) -> bool {
    &&& name.len() >= 1
    &&& name[0] == 114u8
    &&& forall|i: int| 1 <= i < name.len() ==> 48 <= #[trigger] name[i] <= 55
}

/// The path that a canonical name stands for.
pub open spec fn path_of(name: Seq<u8>) -> Seq<u8> {
    Seq::new((name.len() - 1) as nat, |i: int| (name[i + 1] - 48) as u8)
}

/// Identifies a node by the octants chosen on the way down from the root.
/// The view is that path; two identifiers are the same node exactly when
/// their paths are equal.
#[derive(Debug, PartialEq, Eq, Hash)]
pub struct NodeId {
    path: Vec<u8>,
}

impl View for NodeId {
    type V = Seq<u8>;

    closed spec fn view(&self) -> Seq<u8> {
        self.path@
    }
}

impl Clone for NodeId {
    fn clone(&self) -> (r: NodeId)
        ensures
            r@ == self@,
    {
        proof {
            use_type_invariant(self);
        }
        let mut path: Vec<u8> = Vec::new();
        let mut i: usize = 0;
        while i < self.path.len()
            invariant
                i <= self.path@.len(),
                path@ == self.path@.subrange(0, i as int),
                valid_path(self.path@),
            decreases self.path@.len() - i,
        {
            path.push(self.path[i]);
            i += 1;
            assert(path@ =~= self.path@.subrange(0, i as int));
        }
        assert(path@ =~= self.path@);
        NodeId { path }
    }
}

impl NodeId {
    #[verifier::type_invariant]
    spec fn octants_only(self) -> bool {
        valid_path(self.path@)
    }

    /// The root: the empty path.
    pub fn root() -> (r: NodeId)
        ensures
            r@ == Seq::<u8>::empty(),
    {
        NodeId { path: Vec::new() }
    }

    /// The depth of the node; the root has level 0. Every identifier's
    /// path holds octant numbers only.
    pub fn level(&self) -> (r: usize)
        ensures
            r == self@.len(),
            valid_path(self@),
    {
        proof {
            use_type_invariant(self);
        }
        self.path.len()
    }

    /// The octant chosen at the given level on the way down from the root.
    pub fn octant_at(&self, level: usize) -> (r: ChildIndex)
        requires
            level < self@.len(),
        ensures
            r@ == self@[level as int],
    {
        proof {
            use_type_invariant(self);
        }
        ChildIndex::from_u8(self.path[level])
    }

    /// The child of this node in the given octant.
    pub fn child(&self, octant: ChildIndex) -> (r: NodeId)
        ensures
            r@ == self@.push(octant@ as u8),
    {
        let digit: u8 = octant.as_u8();
        let NodeId { mut path } = self.clone();
        proof {
            use_type_invariant(self);
        }
        path.push(digit);
        NodeId { path }
    }

    /// The node one level up, or `None` for the root.
    pub fn parent(&self) -> (r: Option<NodeId>)
        ensures
            self@.len() == 0 <==> r is None,
            r matches Some(p) ==> p@ == self@.drop_last(),
    {
        if self.path.len() == 0 {
            return None;
        }
        let NodeId { mut path } = self.clone();
        proof {
            use_type_invariant(self);
        }
        path.pop();
        assert(path@ =~= self@.drop_last());
        Some(NodeId { path })
    }

    /// Whether both identifiers name the same node.
    pub fn equals(&self, other: &NodeId) -> (r: bool)
        ensures
            r == (self@ == other@),
    {
        if self.path.len() != other.path.len() {
            return false;
        }
        let mut i: usize = 0;
        while i < self.path.len()
            invariant
                i <= self.path@.len(),
                self.path@.len() == other.path@.len(),
                self.path@.subrange(0, i as int) == other.path@.subrange(0, i as int),
            decreases self.path@.len() - i,
        {
            if self.path[i] != other.path[i] {
                return false;
            }
            i += 1;
            assert(self.path@.subrange(0, i as int) =~= self.path@.subrange(0, i - 1).push(
                self.path@[i - 1],
            ));
            assert(other.path@.subrange(0, i as int) =~= other.path@.subrange(0, i - 1).push(
                other.path@[i - 1],
            ));
        }
        assert(self.path@ =~= self.path@.subrange(0, i as int));
        assert(other.path@ =~= other.path@.subrange(0, i as int));
        true
    }

    /// The canonical name, which also names the node's file in storage.
    pub fn to_bytes(&self) -> (r: Vec<u8>)
        ensures
            r@ == name_of(self@),
    {
        proof {
            use_type_invariant(self);
        }
        let mut name: Vec<u8> = Vec::new();
        name.push(114u8);
        let mut i: usize = 0;
        while i < self.path.len()
            invariant
                i <= self.path@.len(),
                valid_path(self.path@),
                name@ == name_of(self.path@.subrange(0, i as int)),
            decreases self.path@.len() - i,
        {
            let digit: u8 = self.path[i];
            name.push(digit + 48);
            i += 1;
            assert(name@ =~= name_of(self.path@.subrange(0, i as int)));
        }
        assert(self.path@.subrange(0, i as int) =~= self.path@);
        name
    }

    /// Parses a canonical name. Anything else gives `None`.
    pub fn from_bytes(name: &[u8]) -> (r: Option<NodeId>)
        ensures
            r is Some <==> is_name(name@),
            r matches Some(id) ==> id@ == path_of(name@) && name_of(id@) == name@,
    {
        if name.len() == 0 || name[0] != 114u8 {
            return None;
        }
        let mut path: Vec<u8> = Vec::new();
        let mut i: usize = 1;
        while i < name.len()
            invariant
                1 <= i <= name@.len(),
                name@[0] == 114u8,
                path@.len() == i - 1,
                forall|k: int| 1 <= k < i ==> 48 <= #[trigger] name@[k] <= 55,
                forall|k: int| 0 <= k < i - 1 ==> #[trigger] path@[k] == name@[k + 1] - 48,
            decreases name@.len() - i,
        {
            let c: u8 = name[i];
            if c < 48 || c > 55 {
                return None;
            }
            path.push(c - 48);
            i += 1;
        }
        assert(path@ =~= path_of(name@));
        assert(name_of(path@) =~= name@);
        Some(NodeId { path })
    }

    /// Parses a canonical name held in a string.
    pub fn from_string(name: &str) -> (r: Option<NodeId>)
        ensures
            r is Some <==> is_name(name.spec_bytes()),
            r matches Some(id) ==> id@ == path_of(name.spec_bytes()) && name_of(id@)
                == name.spec_bytes(),
    {
        NodeId::from_bytes(name.as_bytes())
    }
}

/// A valid path is recovered from its canonical name.
pub proof fn lemma_name_round_trip(path: Seq<u8>)
    requires
        valid_path(path),
    ensures
        is_name(name_of(path)),
        path_of(name_of(path)) == path,
{
    assert(path_of(name_of(path)) =~= path);
}

/// Distinct valid paths have distinct canonical names.
pub proof fn lemma_name_injective(a: Seq<u8>, b: Seq<u8>)
    requires
        valid_path(a),
        valid_path(b),
        name_of(a) == name_of(b),
    ensures
        a == b,
{
    lemma_name_round_trip(a);
    lemma_name_round_trip(b);
}

} // verus!
