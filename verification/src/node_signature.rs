//! What identifies a node for de-duplication: its type, the ids of the
//! nodes it depends on, and any data that sets it apart from others of its
//! type.
use vstd::prelude::*;

verus! {

/// The kinds of nodes a graph can hold.
#[derive(Debug, Hash, PartialEq, Eq, Structural, Clone, Copy)]
pub enum NodeType {
    AbsoluteValue,
    Float,
    Freeverb,
    Multiply,
    Noise,
    Saw,
    Sequence,
    Sine,
    Spline,
    Square,
    Sum,
    SVF,
    ADSR,
    Media,
}

/// The signature of a node. Two nodes with equal signatures compute the
/// same samples, so a graph that de-duplicates keeps only one of them.
#[derive(Debug, Hash, Eq)]
pub struct NodeSignature {
    node_type: NodeType,
    dependency_ids: Vec<usize>,
    ancillary_data: Option<String>,
}

/// A signature as a mathematical value: the node type, the dependency ids
/// and the ancillary data, if any.
pub type SignatureValue = (NodeType, Seq<usize>, Option<Seq<char>>);

/// Ancillary data as a mathematical value.
pub open spec fn data_view(data: Option<String>) -> Option<Seq<char>> {
    match data {
        Some(s) => Some(s@),
        None => None,
    }
}

impl View for NodeSignature {
    type V = SignatureValue;

    closed spec fn view(&self) -> SignatureValue {
        (self.node_type, self.dependency_ids@, data_view(self.ancillary_data))
    }
}

fn same_ids(a: &Vec<usize>, b: &Vec<usize>) -> (same: bool)
    ensures
        same == (a@ == b@),
{
    if a.len() != b.len() {
        return false;
    }
    let mut i: usize = 0;
    while i < a.len()
        invariant
            a@.len() == b@.len(),
            i <= a@.len(),
            forall|j: int| 0 <= j < i ==> a@[j] == b@[j],
        decreases a@.len() - i,
    {
        if a[i] != b[i] {
            return false;
        }
        i = i + 1;
    }
    proof {
        assert(a@ =~= b@);
    }
    true
}

fn same_data(a: &Option<String>, b: &Option<String>) -> (same: bool)
    ensures
        same == (data_view(*a) == data_view(*b)),
{
    match a {
        Some(x) => match b {
            Some(y) => {
                let same = *x == *y;
                proof {
                    assert(data_view(*a) == Some(x@));
                    assert(data_view(*b) == Some(y@));
                }
                same
            },
            None => false,
        },
        None => b.is_none(),
    }
}

impl NodeSignature {
    /// A signature without ancillary data.
    pub fn new(node_type: NodeType, dependency_ids: Vec<usize>) -> (signature: Self)
        ensures
            signature@ == (node_type, dependency_ids@, None::<Seq<char>>),
    {
        NodeSignature { node_type, dependency_ids, ancillary_data: None }
    }

    /// A signature with ancillary data, such as a constant value or a file
    /// path, that tells apart nodes of one type with the same dependencies.
    pub fn new_with_data(node_type: NodeType, dependency_ids: Vec<usize>, ancillary_data: String) -> (signature: Self)
        ensures
            signature@ == (node_type, dependency_ids@, Some(ancillary_data@)),
    {
        NodeSignature { node_type, dependency_ids, ancillary_data: Some(ancillary_data) }
    }

    /// Whether the two signatures are equal: same type, same dependency
    /// ids in the same order, same ancillary data.
    pub fn equals(&self, other: &NodeSignature) -> (same: bool)
        ensures
            same == (self@ == other@),
    {
        self.node_type == other.node_type && same_ids(&self.dependency_ids, &other.dependency_ids)
            && same_data(&self.ancillary_data, &other.ancillary_data)
    }
}

impl PartialEq for NodeSignature {
    fn eq(&self, other: &Self) -> (same: bool) {
        self.equals(other)
    }
}

impl vstd::std_specs::cmp::PartialEqSpecImpl for NodeSignature {
    open spec fn obeys_eq_spec() -> bool {
        true
    }

    open spec fn eq_spec(&self, other: &Self) -> bool {
        self@ == other@
    }
}

} // verus!
