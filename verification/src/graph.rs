//! Handing out node ids while a graph is built, with optional
//! de-duplication: a graph that de-duplicates gives a node whose signature
//! it has seen before the id of the first such node.
use vstd::prelude::*;

use crate::node_signature::{NodeSignature, SignatureValue};

verus! {

/// A registry as a mathematical value: the next id to hand out, whether
/// signatures are de-duplicated, and the id of each signature seen.
pub type RegistryView = (usize, bool, Map<SignatureValue, usize>);

/// The ids of the nodes of a graph under construction.
pub struct NodeRegistry {
    current_id: usize,
    dedupe: bool,
    signature_to_id: Vec<(NodeSignature, usize)>,
}

/// What looking up a signature gives, and the registry after it: without
/// de-duplication the next id, as a new node; with it, the id of a
/// signature seen before, or else the next id, which the signature now
/// holds.
pub open spec fn fetched(v: RegistryView, s: SignatureValue) -> (RegistryView, (usize, bool)) {
    if !v.1 {
        (v, (v.0, false))
    } else if v.2.contains_key(s) {
        (v, (v.2[s], true))
    } else {
        ((v.0, v.1, v.2.insert(s, v.0)), (v.0, false))
    }
}

/// What registering a node gives, and the registry after it: the lookup,
/// and for a new node the next id moves on by one.
pub open spec fn registered(v: RegistryView, s: SignatureValue) -> (RegistryView, (usize, bool)) {
    let (w, r) = fetched(v, s);
    if r.1 {
        (w, r)
    } else {
        (((w.0 + 1) as usize, w.1, w.2), r)
    }
}

/// Every id a registry has given out is below its next id.
pub open spec fn ids_below(v: RegistryView) -> bool {
    forall|s: SignatureValue| #[trigger] v.2.contains_key(s) ==> v.2[s] < v.0
}

impl View for NodeRegistry {
    type V = RegistryView;

    closed spec fn view(&self) -> RegistryView {
        (
            self.current_id,
            self.dedupe,
            Map::new(
                |s: SignatureValue| exists|i: int| 0 <= i < self.signature_to_id@.len() && (#[trigger] self.signature_to_id@[i]).0@ == s,
                |s: SignatureValue| self.signature_to_id@[self.index_of(s)].1,
            ),
        )
    }
}

impl NodeRegistry {
    spec fn index_of(&self, s: SignatureValue) -> int {
        choose|i: int| 0 <= i < self.signature_to_id@.len() && (#[trigger] self.signature_to_id@[i]).0@ == s
    }

    /// The table holds each signature once, every id it holds is below
    /// `bound`, and it is empty unless signatures are de-duplicated.
    spec fn table_ok(&self, bound: int) -> bool {
        &&& forall|i: int, j: int|
            0 <= i < j < self.signature_to_id@.len() ==> (#[trigger] self.signature_to_id@[i]).0@
                != (#[trigger] self.signature_to_id@[j]).0@
        &&& forall|i: int| 0 <= i < self.signature_to_id@.len() ==> (#[trigger] self.signature_to_id@[i]).1 < bound
        &&& !self.dedupe ==> self.signature_to_id@.len() == 0
    }

    /// The table holds each signature once, and every id it holds is below
    /// the next id.
    pub closed spec fn wf(&self) -> bool {
        self.table_ok(self.current_id as int)
    }

    proof fn lemma_view_at(&self, i: int, bound: int)
        requires
            self.table_ok(bound),
            0 <= i < self.signature_to_id@.len(),
        ensures
            self@.2.contains_key(self.signature_to_id@[i].0@),
            self@.2[self.signature_to_id@[i].0@] == self.signature_to_id@[i].1,
    {
        let s = self.signature_to_id@[i].0@;
        assert(self@.2.contains_key(s));
        let k = self.index_of(s);
        assert(self.signature_to_id@[k].0@ == s);
        if k != i {
            if k < i {
                assert(self.signature_to_id@[k].0@ != self.signature_to_id@[i].0@);
            } else {
                assert(self.signature_to_id@[i].0@ != self.signature_to_id@[k].0@);
            }
        }
    }

    /// An empty registry; ids start at 0.
    pub fn new(dedupe: bool) -> (registry: Self)
        ensures
            registry.wf(),
            registry@ == (0usize, dedupe, Map::<SignatureValue, usize>::empty()),
    {
        let registry = NodeRegistry { current_id: 0, dedupe, signature_to_id: Vec::new() };
        proof {
            assert(registry@.2 =~= Map::<SignatureValue, usize>::empty());
        }
        registry
    }

    /// The id the next new node gets.
    pub fn current_id(&self) -> (id: usize)
        ensures
            id == self@.0,
    {
        self.current_id
    }

    /// Whether signatures are de-duplicated.
    pub fn dedupe(&self) -> (dedupe: bool)
        ensures
            dedupe == self@.1,
    {
        self.dedupe
    }

    /// Looks `signature` up: gives the id for it and whether a node with it
    /// already exists. A new signature is recorded with the next id.
    fn fetch_signature_id(&mut self, signature: NodeSignature) -> (result: (usize, bool))
        requires
            old(self).wf(),
        ensures
            final(self).table_ok(old(self).current_id + 1),
            result.1 || !old(self).dedupe ==> *final(self) == *old(self),
            (final(self)@, result) == fetched(old(self)@, signature@),
    {
        if !self.dedupe {
            return (self.current_id, false);
        }
        let ghost before = *self;
        let mut i: usize = 0;
        while i < self.signature_to_id.len()
            invariant
                *self == before,
                self.wf(),
                self.dedupe,
                i <= self.signature_to_id@.len(),
                forall|j: int| 0 <= j < i ==> (#[trigger] self.signature_to_id@[j]).0@ != signature@,
            decreases self.signature_to_id@.len() - i,
        {
            if self.signature_to_id[i].0.equals(&signature) {
                proof {
                    self.lemma_view_at(i as int, self.current_id as int);
                }
                return (self.signature_to_id[i].1, true);
            }
            i = i + 1;
        }
        let ghost s = signature@;
        proof {
            assert(!self@.2.contains_key(s)) by {
                if self@.2.contains_key(s) {
                    let k = self.index_of(s);
                    assert(self.signature_to_id@[k].0@ == s);
                }
            }
        }
        let id = self.current_id;
        self.signature_to_id.push((signature, id));
        proof {
            let t = self.signature_to_id@;
            assert(t[t.len() - 1].0@ == s);
            assert forall|i: int, j: int| 0 <= i < j < t.len() implies (#[trigger] t[i]).0@ != (
            #[trigger] t[j]).0@ by {
                assert(t[i] == before.signature_to_id@[i]);
                if j < t.len() - 1 {
                    assert(t[j] == before.signature_to_id@[j]);
                }
            }
            assert forall|i: int| 0 <= i < t.len() implies (#[trigger] t[i]).1 < self.current_id + 1 by {
                if i < t.len() - 1 {
                    assert(t[i] == before.signature_to_id@[i]);
                }
            }
            assert(self.table_ok(self.current_id + 1));
            let m = before@.2.insert(s, id);
            assert forall|x: SignatureValue| self@.2.contains_key(x) <==> m.contains_key(x) by {
                if m.contains_key(x) && x != s {
                    let k = before.index_of(x);
                    assert(t[k] == before.signature_to_id@[k]);
                }
                if self@.2.contains_key(x) && x != s {
                    let k = self.index_of(x);
                    assert(k < t.len() - 1);
                    assert(t[k] == before.signature_to_id@[k]);
                }
            }
            assert forall|x: SignatureValue| #[trigger] self@.2.contains_key(x) implies self@.2[x] == m[x] by {
                let k = self.index_of(x);
                self.lemma_view_at(k, self.current_id + 1);
                if x != s {
                    assert(k < t.len() - 1);
                    assert(t[k] == before.signature_to_id@[k]);
                    before.lemma_view_at(k, before.current_id as int);
                }
            }
            assert(self@.2 =~= m);
        }
        (id, false)
    }

    /// Registers a node with `signature`: gives its id and whether a node
    /// with that signature already existed. A new node takes the next id,
    /// and the next id moves on by one.
    pub fn register(&mut self, signature: NodeSignature) -> (result: (usize, bool))
        requires
            old(self).wf(),
            old(self)@.0 < usize::MAX,
        ensures
            final(self).wf(),
            (final(self)@, result) == registered(old(self)@, signature@),
    {
        let (id, signature_exists) = self.fetch_signature_id(signature);
        if !signature_exists {
            self.current_id = self.current_id + 1;
            proof {
                assert forall|i: int| 0 <= i < self.signature_to_id@.len() implies (#[trigger] self.signature_to_id@[i]).1
                    < self.current_id by {}
            }
        }
        (id, signature_exists)
    }

    /// Gives the next id to a node that is never de-duplicated.
    pub fn fresh_id(&mut self) -> (id: usize)
        requires
            old(self).wf(),
            old(self)@.0 < usize::MAX,
        ensures
            final(self).wf(),
            id == old(self)@.0,
            final(self)@ == ((old(self)@.0 + 1) as usize, old(self)@.1, old(self)@.2),
    {
        let id = self.current_id;
        self.current_id = self.current_id + 1;
        proof {
            assert forall|i: int| 0 <= i < self.signature_to_id@.len() implies (#[trigger] self.signature_to_id@[i]).1
                < self.current_id by {}
        }
        id
    }
}

/// With de-duplication, registering a signature a second time gives the id
/// of the first node, says that it exists, and changes nothing.
pub proof fn lemma_register_repeat(v: RegistryView, s: SignatureValue)
    requires
        v.1,
        v.0 < usize::MAX,
    ensures
        ({
            let (v1, r1) = registered(v, s);
            let (v2, r2) = registered(v1, s);
            r2 == (r1.0, true) && v2 == v1
        }),
{
    let (v1, r1) = registered(v, s);
    assert(v1.2.contains_key(s));
}

/// A node that does not exist yet gets the next id, which no node had, and
/// the next id moves on by one; without de-duplication that is every node.
pub proof fn lemma_register_fresh(v: RegistryView, s: SignatureValue)
    requires
        ids_below(v),
        v.0 < usize::MAX,
    ensures
        ({
            let (v1, r) = registered(v, s);
            &&& !r.1 ==> r.0 == v.0 && v1.0 == v.0 + 1
            &&& !r.1 ==> forall|x: SignatureValue| #[trigger] v.2.contains_key(x) ==> v.2[x] != r.0
            &&& r.1 ==> r.0 < v.0 && v1 == v
            &&& !v.1 ==> !r.1
            &&& ids_below(v1)
        }),
{
    let (v1, r) = registered(v, s);
    if v.1 && !v.2.contains_key(s) {
        assert forall|x: SignatureValue| #[trigger] v1.2.contains_key(x) implies v1.2[x] < v1.0 by {
            if x != s {
                assert(v.2.contains_key(x));
            }
        }
    }
}

impl NodeRegistry {
    /// A well-formed registry has handed out only ids below its next id.
    pub proof fn lemma_ids_below(&self)
        requires
            self.wf(),
        ensures
            ids_below(self@),
    {
        assert forall|s: SignatureValue| #[trigger] self@.2.contains_key(s) implies self@.2[s] < self@.0 by {
            let k = self.index_of(s);
            self.lemma_view_at(k, self.current_id as int);
        }
    }
}

} // verus!
