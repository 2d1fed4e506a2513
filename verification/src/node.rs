//! The wiring of the arithmetic nodes: their ids and the ids of the nodes
//! whose samples they read.
use vstd::prelude::*;

pub use crate::sequence::SourceInterval;

verus! {

/// A node that gives the absolute value of another node's samples.
pub struct AbsoluteValue {
    id: usize,
    source_id: usize,
    dependency_ids: Vec<usize>,
}

impl AbsoluteValue {
    pub fn new(id: usize, source_id: usize) -> (node: Self)
        ensures
            node.id() == id,
            node.source_id() == source_id,
            node.dependencies() == seq![source_id],
    {
        AbsoluteValue { id, source_id, dependency_ids: vec![source_id] }
    }

    pub closed spec fn spec_id(&self) -> usize {
        self.id
    }

    #[verifier::when_used_as_spec(spec_id)]
    pub fn id(&self) -> (id: usize)
        ensures
            id == self.spec_id(),
    {
        self.id
    }

    pub closed spec fn spec_source_id(&self) -> usize {
        self.source_id
    }

    /// The node whose samples are read.
    #[verifier::when_used_as_spec(spec_source_id)]
    pub fn source_id(&self) -> (id: usize)
        ensures
            id == self.spec_source_id(),
    {
        self.source_id
    }

    /// The ids of the nodes whose samples this node reads.
    pub closed spec fn dependencies(&self) -> Seq<usize> {
        self.dependency_ids@
    }

    pub fn dependency_ids(&self) -> (ids: &Vec<usize>)
        ensures
            ids@ == self.dependencies(),
    {
        &self.dependency_ids
    }
}

/// A node that multiplies the samples of two nodes.
pub struct MultiplyNode {
    id: usize,
    multiplicand_source_id: usize,
    multiplier_source_id: usize,
    dependency_ids: Vec<usize>,
}

impl MultiplyNode {
    pub fn new(id: usize, multiplicand_source_id: usize, multiplier_source_id: usize) -> (node: Self)
        ensures
            node.id() == id,
            node.multiplicand_source_id() == multiplicand_source_id,
            node.multiplier_source_id() == multiplier_source_id,
            node.dependencies() == seq![multiplicand_source_id, multiplier_source_id],
    {
        MultiplyNode { id, multiplicand_source_id, multiplier_source_id, dependency_ids: vec![multiplicand_source_id, multiplier_source_id] }
    }

    pub closed spec fn spec_id(&self) -> usize {
        self.id
    }

    #[verifier::when_used_as_spec(spec_id)]
    pub fn id(&self) -> (id: usize)
        ensures
            id == self.spec_id(),
    {
        self.id
    }

    pub closed spec fn spec_multiplicand_source_id(&self) -> usize {
        self.multiplicand_source_id
    }

    /// The node whose samples are multiplied.
    #[verifier::when_used_as_spec(spec_multiplicand_source_id)]
    pub fn multiplicand_source_id(&self) -> (id: usize)
        ensures
            id == self.spec_multiplicand_source_id(),
    {
        self.multiplicand_source_id
    }

    pub closed spec fn spec_multiplier_source_id(&self) -> usize {
        self.multiplier_source_id
    }

    /// The node whose samples they are multiplied by.
    #[verifier::when_used_as_spec(spec_multiplier_source_id)]
    pub fn multiplier_source_id(&self) -> (id: usize)
        ensures
            id == self.spec_multiplier_source_id(),
    {
        self.multiplier_source_id
    }

    /// The ids of the nodes whose samples this node reads.
    pub closed spec fn dependencies(&self) -> Seq<usize> {
        self.dependency_ids@
    }

    pub fn dependency_ids(&self) -> (ids: &Vec<usize>)
        ensures
            ids@ == self.dependencies(),
    {
        &self.dependency_ids
    }
}

/// A node that adds the samples of two nodes.
pub struct SumNode {
    id: usize,
    augend_source_id: usize,
    addend_source_id: usize,
    dependency_ids: Vec<usize>,
}

impl SumNode {
    pub fn new(id: usize, augend_source_id: usize, addend_source_id: usize) -> (node: Self)
        ensures
            node.id() == id,
            node.augend_source_id() == augend_source_id,
            node.addend_source_id() == addend_source_id,
            node.dependencies() == seq![augend_source_id, addend_source_id],
    {
        SumNode { id, augend_source_id, addend_source_id, dependency_ids: vec![augend_source_id, addend_source_id] }
    }

    pub closed spec fn spec_id(&self) -> usize {
        self.id
    }

    #[verifier::when_used_as_spec(spec_id)]
    pub fn id(&self) -> (id: usize)
        ensures
            id == self.spec_id(),
    {
        self.id
    }

    pub closed spec fn spec_augend_source_id(&self) -> usize {
        self.augend_source_id
    }

    /// The node whose samples are added to.
    #[verifier::when_used_as_spec(spec_augend_source_id)]
    pub fn augend_source_id(&self) -> (id: usize)
        ensures
            id == self.spec_augend_source_id(),
    {
        self.augend_source_id
    }

    pub closed spec fn spec_addend_source_id(&self) -> usize {
        self.addend_source_id
    }

    /// The node whose samples are added.
    #[verifier::when_used_as_spec(spec_addend_source_id)]
    pub fn addend_source_id(&self) -> (id: usize)
        ensures
            id == self.spec_addend_source_id(),
    {
        self.addend_source_id
    }

    /// The ids of the nodes whose samples this node reads.
    pub closed spec fn dependencies(&self) -> Seq<usize> {
        self.dependency_ids@
    }

    pub fn dependency_ids(&self) -> (ids: &Vec<usize>)
        ensures
            ids@ == self.dependencies(),
    {
        &self.dependency_ids
    }
}

/// The response of a state-variable filter.
#[derive(Debug, Clone, Copy, PartialEq, Eq, Structural, Hash)]
pub enum FilterType {
    HighPass,
    BandPass,
    LowPass,
}

} // verus!
