//! Scheduling of audio graphs: which order nodes are polled in, and in
//! which parallel layers.
use std::collections::HashMap;
use vstd::prelude::*;

verus! {

/// A node of an audio graph, reduced to what scheduling needs: its id and
/// the ids of the nodes it reads from (its children, or dependencies).
#[derive(Debug, Clone)]
pub struct Reference {
    pub id: usize,
    pub child_ids: Vec<usize>,
}

/// Some reference of `refs` lists `id` among its children.
pub open spec fn has_dependent(refs: Seq<Reference>, id: usize) -> bool {
    exists|k: int| 0 <= k < refs.len() && (#[trigger] refs[k]).child_ids@.contains(id)
}

/// A reference is a root when no reference lists its id as a child.
pub open spec fn is_root_reference(refs: Seq<Reference>, r: Reference) -> bool {
    !has_dependent(refs, r.id)
}

/// The number of root references (counted per reference, not per id).
pub open spec fn num_roots(refs: Seq<Reference>) -> nat {
    refs.filter(|r: Reference| is_root_reference(refs, r)).len()
}

/// Exactly one reference is a root.
pub open spec fn has_one_root(refs: Seq<Reference>) -> bool {
    num_roots(refs) == 1
}

/// Some chain of dependents leads from `x` to `root`.
pub open spec fn feeds_root(refs: Seq<Reference>, x: usize, root: usize) -> bool {
    exists|n: nat| feeds(refs, x, root, n)
}

/// Every reference feeds `root`.
#[verifier::opaque]
pub open spec fn all_feed(refs: Seq<Reference>, root: usize) -> bool {
    forall|k: int| 0 <= k < refs.len() ==> feeds_root(refs, (#[trigger] refs[k]).id, root)
}

/// The graph is single-rooted: exactly one reference is a root, and every
/// node is connected to that root through a chain of dependents.
pub open spec fn is_single_rooted(refs: Seq<Reference>) -> bool {
    &&& has_one_root(refs)
    &&& exists|root: usize| is_root_id(refs, root) && #[trigger] all_feed(refs, root)
}

fn contains_id(ids: &Vec<usize>, id: usize) -> (found: bool)
    ensures
        found == ids@.contains(id),
{
    let mut i: usize = 0;
    while i < ids.len()
        invariant
            i <= ids.len(),
            forall|j: int| 0 <= j < i ==> ids@[j] != id,
        decreases ids.len() - i,
    {
        if ids[i] == id {
            return true;
        }
        i = i + 1;
    }
    false
}

fn has_dependent_exec(references: &Vec<Reference>, id: usize) -> (found: bool)
    ensures
        found == has_dependent(references@, id),
{
    let mut k: usize = 0;
    while k < references.len()
        invariant
            k <= references.len(),
            forall|j: int| 0 <= j < k ==> !(#[trigger] references@[j]).child_ids@.contains(id),
        decreases references.len() - k,
    {
        if contains_id(&references[k].child_ids, id) {
            return true;
        }
        k = k + 1;
    }
    false
}

/// Whether exactly one reference is not a child of any reference.
fn has_single_root(references: &Vec<Reference>) -> (single: bool)
    ensures
        single == has_one_root(references@),
{
    let ghost refs = references@;
    let ghost pred = |r: Reference| is_root_reference(refs, r);
    let mut num_roots: usize = 0;
    let mut i: usize = 0;
    while i < references.len()
        invariant
            refs == references@,
            pred == (|r: Reference| is_root_reference(refs, r)),
            i <= references.len(),
            num_roots == refs.take(i as int).filter(pred).len(),
            num_roots <= i,
        decreases references.len() - i,
    {
        proof {
            reveal_with_fuel(Seq::<_>::filter, 1);
            assert(refs.take(i + 1).drop_last() =~= refs.take(i as int));
        }
        if !has_dependent_exec(references, references[i].id) {
            num_roots = num_roots + 1;
        }
        i = i + 1;
    }
    proof {
        assert(refs.take(i as int) =~= refs);
    }
    num_roots == 1
}

/// All child ids of `refs`, reference after reference.
pub open spec fn all_children(refs: Seq<Reference>) -> Seq<usize>
    decreases refs.len(),
{
    if refs.len() == 0 {
        Seq::empty()
    } else {
        all_children(refs.drop_last()) + refs.last().child_ids@
    }
}

proof fn lemma_all_children(refs: Seq<Reference>, k: int, j: int)
    requires
        0 <= k < refs.len(),
        0 <= j < refs[k].child_ids@.len(),
    ensures
        all_children(refs).contains(refs[k].child_ids@[j]),
    decreases refs.len(),
{
    let rest = refs.drop_last();
    let c = refs[k].child_ids@[j];
    if k < refs.len() - 1 {
        assert(rest[k] == refs[k]);
        lemma_all_children(rest, k, j);
        let i = choose|i: int| 0 <= i < all_children(rest).len() && all_children(rest)[i] == c;
        assert(all_children(refs)[i] == c);
    } else {
        assert(all_children(refs)[all_children(rest).len() + j] == c);
    }
}

/// Once every node of `seen` has had its children added, every node that
/// feeds `root` is in `seen`.
proof fn lemma_closed_holds_feeders(refs: Seq<Reference>, seen: Seq<usize>, root: usize, x: usize, n: nat)
    requires
        seen.contains(root),
        forall|j: int, k: int, c: int|
            0 <= j < seen.len() && 0 <= k < refs.len() && (#[trigger] refs[k]).id == #[trigger] seen[j] && 0 <= c
                < refs[k].child_ids@.len() ==> seen.contains(#[trigger] refs[k].child_ids@[c]),
        feeds(refs, x, root, n),
    ensures
        seen.contains(x),
    decreases n,
{
    if n > 0 {
        let k = choose|k: int|
            0 <= k < refs.len() && (#[trigger] refs[k]).child_ids@.contains(x) && feeds(
                refs,
                refs[k].id,
                root,
                (n - 1) as nat,
            );
        lemma_closed_holds_feeders(refs, seen, root, refs[k].id, (n - 1) as nat);
        let j = choose|j: int| 0 <= j < seen.len() && seen[j] == refs[k].id;
        let c = choose|c: int| 0 <= c < refs[k].child_ids@.len() && refs[k].child_ids@[c] == x;
        assert(refs[k].id == seen[j]);
        assert(seen.contains(refs[k].child_ids@[c]));
    }
}

/// The ids that feed `root`: `root` itself and every node from which a
/// chain of dependents leads to it.
fn feeders(references: &Vec<Reference>, root: usize) -> (seen: Vec<usize>)
    ensures
        forall|x: usize| seen@.contains(x) <==> feeds_root(references@, x, root),
{
    let ghost refs = references@;
    let ghost cands = seq![root] + all_children(refs);
    let mut seen: Vec<usize> = Vec::new();
    seen.push(root);
    proof {
        assert(feeds(refs, root, root, 0));
        assert(cands[0] == root);
    }
    let mut i: usize = 0;
    while i < seen.len()
        invariant
            refs == references@,
            cands == seq![root] + all_children(refs),
            seen@.len() > 0,
            seen@[0] == root,
            i <= seen@.len(),
            seen@.no_duplicates(),
            seen@.len() <= cands.len(),
            forall|j: int| 0 <= j < seen@.len() ==> cands.contains(#[trigger] seen@[j]),
            forall|j: int| 0 <= j < seen@.len() ==> feeds_root(refs, #[trigger] seen@[j], root),
            forall|j: int, k: int, c: int|
                0 <= j < i && 0 <= k < refs.len() && (#[trigger] refs[k]).id == #[trigger] seen@[j] && 0 <= c
                    < refs[k].child_ids@.len() ==> seen@.contains(#[trigger] refs[k].child_ids@[c]),
        decreases cands.len() - seen@.len(), seen@.len() - i,
    {
        let x = seen[i];
        let ghost len0 = seen@.len();
        let mut k: usize = 0;
        while k < references.len()
            invariant
                refs == references@,
                cands == seq![root] + all_children(refs),
                seen@.len() >= len0,
                len0 > i,
                x == seen@[i as int],
                seen@[0] == root,
                k <= refs.len(),
                seen@.no_duplicates(),
                seen@.len() <= cands.len(),
                forall|j: int| 0 <= j < seen@.len() ==> cands.contains(#[trigger] seen@[j]),
                forall|j: int| 0 <= j < seen@.len() ==> feeds_root(refs, #[trigger] seen@[j], root),
                forall|j: int, k2: int, c: int|
                    0 <= j < i && 0 <= k2 < refs.len() && (#[trigger] refs[k2]).id == #[trigger] seen@[j] && 0
                        <= c < refs[k2].child_ids@.len() ==> seen@.contains(#[trigger] refs[k2].child_ids@[c]),
                forall|k2: int, c: int|
                    0 <= k2 < k && (#[trigger] refs[k2]).id == x && 0 <= c < refs[k2].child_ids@.len()
                        ==> seen@.contains(#[trigger] refs[k2].child_ids@[c]),
            decreases refs.len() - k,
        {
            if references[k].id == x {
                let children = &references[k].child_ids;
                let mut c: usize = 0;
                while c < children.len()
                    invariant
                        refs == references@,
                        cands == seq![root] + all_children(refs),
                        children@ == refs[k as int].child_ids@,
                        refs[k as int].id == x,
                        k < refs.len(),
                        seen@.len() >= len0,
                        len0 > i,
                        x == seen@[i as int],
                        seen@[0] == root,
                        c <= children@.len(),
                        seen@.no_duplicates(),
                        seen@.len() <= cands.len(),
                        forall|j: int| 0 <= j < seen@.len() ==> cands.contains(#[trigger] seen@[j]),
                        forall|j: int| 0 <= j < seen@.len() ==> feeds_root(refs, #[trigger] seen@[j], root),
                        forall|j: int, k2: int, c2: int|
                            0 <= j < i && 0 <= k2 < refs.len() && (#[trigger] refs[k2]).id == #[trigger] seen@[j]
                                && 0 <= c2 < refs[k2].child_ids@.len() ==> seen@.contains(
                                #[trigger] refs[k2].child_ids@[c2],
                            ),
                        forall|k2: int, c2: int|
                            0 <= k2 < k && (#[trigger] refs[k2]).id == x && 0 <= c2 < refs[k2].child_ids@.len()
                                ==> seen@.contains(#[trigger] refs[k2].child_ids@[c2]),
                        forall|c2: int| 0 <= c2 < c ==> seen@.contains(#[trigger] children@[c2]),
                    decreases children@.len() - c,
                {
                    let child = children[c];
                    if !contains_id(&seen, child) {
                        let ghost before = seen@;
                        proof {
                            lemma_all_children(refs, k as int, c as int);
                            let ia = choose|ia: int| 0 <= ia < all_children(refs).len() && all_children(refs)[ia] == child;
                            assert(cands[ia + 1] == child);
                            let n = choose|n: nat| feeds(refs, x, root, n);
                            assert(refs[k as int].child_ids@.contains(child)) by {
                                assert(refs[k as int].child_ids@[c as int] == child);
                            }
                            assert(feeds(refs, child, root, n + 1));
                            let s2 = before.push(child);
                            assert forall|j: int| 0 <= j < s2.len() implies cands.contains(#[trigger] s2[j]) by {
                                if j < before.len() {
                                    assert(s2[j] == before[j]);
                                }
                            }
                            assert(s2.no_duplicates()) by {
                                assert forall|a: int, b: int| 0 <= a < b < s2.len() implies s2[a] != s2[b] by {
                                    if b == before.len() {
                                        assert(s2[a] == before[a]);
                                    } else {
                                        assert(s2[a] == before[a] && s2[b] == before[b]);
                                    }
                                }
                            }
                            lemma_nodup_subset_len(s2, cands);
                        }
                        seen.push(child);
                        proof {
                            assert forall|j: int| 0 <= j < seen@.len() implies feeds_root(refs, #[trigger] seen@[j], root) by {
                                if j < before.len() {
                                    assert(seen@[j] == before[j]);
                                } else {
                                    let n = choose|n: nat| feeds(refs, x, root, n);
                                    assert(feeds(refs, child, root, n + 1));
                                }
                            }
                            assert forall|y: usize| before.contains(y) implies seen@.contains(y) by {
                                let j = choose|j: int| 0 <= j < before.len() && before[j] == y;
                                assert(seen@[j] == y);
                            }
                            assert(seen@[seen@.len() - 1] == child);
                            assert forall|j: int| 0 <= j < seen@.len() implies cands.contains(#[trigger] seen@[j]) by {
                                if j < before.len() {
                                    assert(seen@[j] == before[j]);
                                }
                            }
                            assert forall|j: int, k2: int, c2: int|
                                0 <= j < i && 0 <= k2 < refs.len() && (#[trigger] refs[k2]).id == #[trigger] seen@[j]
                                    && 0 <= c2 < refs[k2].child_ids@.len() implies seen@.contains(
                                    #[trigger] refs[k2].child_ids@[c2],
                                ) by {
                                assert(seen@[j] == before[j]);
                                assert(before.contains(refs[k2].child_ids@[c2]));
                            }
                            assert forall|k2: int, c2: int|
                                0 <= k2 < k && (#[trigger] refs[k2]).id == x && 0 <= c2 < refs[k2].child_ids@.len()
                                    implies seen@.contains(#[trigger] refs[k2].child_ids@[c2]) by {
                                assert(before.contains(refs[k2].child_ids@[c2]));
                            }
                            assert forall|c2: int| 0 <= c2 < c + 1 implies seen@.contains(#[trigger] children@[c2]) by {
                                if c2 < c {
                                    assert(before.contains(children@[c2]));
                                }
                            }
                        }
                    }
                    c = c + 1;
                }
            }
            k = k + 1;
        }
        i = i + 1;
    }
    proof {
        assert(seen@.contains(root)) by {
            assert(seen@[0] == root);
        }
        assert forall|x: usize| seen@.contains(x) <==> feeds_root(refs, x, root) by {
            if seen@.contains(x) {
                let j = choose|j: int| 0 <= j < seen@.len() && seen@[j] == x;
                assert(feeds_root(refs, seen@[j], root));
            }
            if feeds_root(refs, x, root) {
                let n = choose|n: nat| feeds(refs, x, root, n);
                lemma_closed_holds_feeders(refs, seen@, root, x, n);
            }
        }
    }
    seen
}

/// Checks if the audio graph is single-rooted: exactly one reference is not
/// a child of any reference, and every node is connected to that root.
pub fn is_graph_single_rooted(references: &Vec<Reference>) -> (single: bool)
    ensures
        single == is_single_rooted(references@),
{
    let ghost refs = references@;
    if !has_single_root(references) {
        return false;
    }
    proof {
        lemma_root_exists(refs);
    }
    let mut k: usize = 0;
    while k < references.len() && has_dependent_exec(references, references[k].id)
        invariant
            refs == references@,
            has_one_root(refs),
            k <= refs.len(),
            exists|k2: int| 0 <= k2 < refs.len() && is_root_id(refs, (#[trigger] refs[k2]).id),
            forall|j: int| 0 <= j < k ==> has_dependent(refs, (#[trigger] refs[j]).id),
        decreases refs.len() - k,
    {
        k = k + 1;
    }
    if k >= references.len() {
        proof {
            let k2 = choose|k2: int| 0 <= k2 < refs.len() && is_root_id(refs, (#[trigger] refs[k2]).id);
            assert(has_dependent(refs, refs[k2].id));
        }
        return false;
    }
    let root = references[k].id;
    proof {
        assert(is_root_id(refs, root));
    }
    let seen = feeders(references, root);
    let mut j: usize = 0;
    while j < references.len()
        invariant
            refs == references@,
            has_one_root(refs),
            is_root_id(refs, root),
            j <= refs.len(),
            forall|x: usize| seen@.contains(x) <==> feeds_root(refs, x, root),
            forall|i: int| 0 <= i < j ==> feeds_root(refs, (#[trigger] refs[i]).id, root),
        decreases refs.len() - j,
    {
        if !contains_id(&seen, references[j].id) {
            proof {
                reveal(all_feed);
                assert(!feeds_root(refs, refs[j as int].id, root));
                assert(!all_feed(refs, root));
                assert forall|r: usize| is_root_id(refs, r) implies !all_feed(refs, r) by {
                    lemma_two_roots(refs, r, root);
                }
            }
            return false;
        }
        j = j + 1;
    }
    proof {
        reveal(all_feed);
        assert(all_feed(refs, root));
    }
    true
}


/// Every id that a reference mentions, its own or a child's, is at most
/// `max_id`.
pub open spec fn ids_within(refs: Seq<Reference>, max_id: usize) -> bool {
    forall|k: int|
        0 <= k < refs.len() ==> {
            &&& (#[trigger] refs[k]).id <= max_id
            &&& forall|j: int| 0 <= j < refs[k].child_ids@.len() ==> refs[k].child_ids@[j] <= max_id
        }
}

/// No two references share an id.
pub open spec fn unique_ids(refs: Seq<Reference>) -> bool {
    forall|a: int, b: int|
        0 <= a < refs.len() && 0 <= b < refs.len() && a != b ==> (#[trigger] refs[a]).id != (
        #[trigger] refs[b]).id
}

/// Some reference has id `id`.
pub open spec fn is_ref_id(refs: Seq<Reference>, id: usize) -> bool {
    exists|k: int| 0 <= k < refs.len() && (#[trigger] refs[k]).id == id
}

/// Some reference has no children.
pub open spec fn has_leaf(refs: Seq<Reference>) -> bool {
    exists|k: int| 0 <= k < refs.len() && (#[trigger] refs[k]).child_ids@.len() == 0
}

/// Every child of the node `order[i]` occurs in `order` before position `i`.
pub open spec fn children_precede(refs: Seq<Reference>, order: Seq<usize>, i: int) -> bool {
    forall|k: int, j: int|
        0 <= k < refs.len() && refs[k].id == order[i] && 0 <= j < refs[k].child_ids@.len()
            ==> order.take(i).contains(#[trigger] refs[k].child_ids@[j])
}

/// `order` lists every reference id once, each after all of its children.
pub open spec fn is_topological_order(refs: Seq<Reference>, order: Seq<usize>) -> bool {
    &&& order.len() == refs.len()
    &&& order.no_duplicates()
    &&& forall|i: int| 0 <= i < order.len() ==> is_ref_id(refs, #[trigger] order[i])
    &&& forall|i: int| 0 <= i < order.len() ==> #[trigger] children_precede(refs, order, i)
}

/// The graph can be scheduled at all: it has no cycle and no child id that
/// names a missing node.
pub open spec fn has_topological_order(refs: Seq<Reference>) -> bool {
    exists|order: Seq<usize>| is_topological_order(refs, order)
}

/// Why a graph could not be scheduled.
#[derive(Debug, Clone, Copy, PartialEq, Eq)]
pub enum ScheduleError {
    /// The graph does not have exactly one root.
    NotSingleRooted,
    /// No node is free of dependencies, so there is nowhere to start.
    NoLeaves,
    /// Some nodes could never be scheduled (a cycle, or a missing dependency).
    Incomplete { received: usize, scheduled: usize },
    /// A node was reached that the reversed graph does not hold.
    MissingReference { id: usize },
    /// A dependency cycle was met while layering the graph.
    Cycle,
    /// A child id names no reference.
    UnknownChild { id: usize },
    /// The graph has no root.
    EmptyGraph,
    /// There are no nodes at all.
    NoNodes,
}

/// How many times `x` occurs in `s`.
pub open spec fn occ(s: Seq<usize>, x: usize) -> nat
    decreases s.len(),
{
    if s.len() == 0 {
        0
    } else {
        occ(s.drop_last(), x) + if s.last() == x { 1nat } else { 0nat }
    }
}

/// How many entries of `s` occur in `done`.
pub open spec fn sat(s: Seq<usize>, done: Seq<usize>) -> nat
    decreases s.len(),
{
    if s.len() == 0 {
        0
    } else {
        sat(s.drop_last(), done) + if done.contains(s.last()) { 1nat } else { 0nat }
    }
}

proof fn lemma_occ_push(s: Seq<usize>, a: usize, x: usize)
    ensures
        occ(s.push(a), x) == occ(s, x) + if a == x { 1nat } else { 0nat },
{
    assert(s.push(a).drop_last() =~= s);
}

proof fn lemma_occ_take_step(s: Seq<usize>, j: int, x: usize)
    requires
        0 <= j < s.len(),
    ensures
        occ(s.take(j + 1), x) == occ(s.take(j), x) + if s[j] == x { 1nat } else { 0nat },
{
    assert(s.take(j + 1) =~= s.take(j).push(s[j]));
    lemma_occ_push(s.take(j), s[j], x);
}

proof fn lemma_occ_take_le(s: Seq<usize>, j: int, x: usize)
    requires
        0 <= j <= s.len(),
    ensures
        occ(s.take(j), x) <= occ(s, x),
    decreases s.len() - j,
{
    if j < s.len() {
        lemma_occ_take_step(s, j, x);
        lemma_occ_take_le(s, j + 1, x);
    } else {
        assert(s.take(j) =~= s);
    }
}

proof fn lemma_occ_pos(s: Seq<usize>, x: usize)
    requires
        occ(s, x) > 0,
    ensures
        s.contains(x),
    decreases s.len(),
{
    if s.last() != x {
        lemma_occ_pos(s.drop_last(), x);
        let i = choose|i: int| 0 <= i < s.drop_last().len() && s.drop_last()[i] == x;
        assert(s[i] == x);
    } else {
        assert(s[s.len() - 1] == x);
    }
}

proof fn lemma_sat_le_len(s: Seq<usize>, done: Seq<usize>)
    ensures
        sat(s, done) <= s.len(),
    decreases s.len(),
{
    if s.len() > 0 {
        lemma_sat_le_len(s.drop_last(), done);
    }
}

proof fn lemma_sat_push_done(s: Seq<usize>, done: Seq<usize>, p: usize)
    requires
        !done.contains(p),
    ensures
        sat(s, done.push(p)) == sat(s, done) + occ(s, p),
    decreases s.len(),
{
    if s.len() > 0 {
        lemma_sat_push_done(s.drop_last(), done, p);
        if s.last() == p {
            assert(done.push(p)[done.len() as int] == p);
        } else {
            if done.push(p).contains(s.last()) {
                let i = choose|i: int| 0 <= i < done.push(p).len() && done.push(p)[i] == s.last();
                assert(done[i] == s.last());
            }
            if done.contains(s.last()) {
                let i = choose|i: int| 0 <= i < done.len() && done[i] == s.last();
                assert(done.push(p)[i] == s.last());
            }
        }
    }
}

/// All entries of `s` are in `done` exactly when `sat` counts all of them.
proof fn lemma_sat_full(s: Seq<usize>, done: Seq<usize>)
    ensures
        (sat(s, done) == s.len()) <==> (forall|j: int| 0 <= j < s.len() ==> done.contains(#[trigger] s[j])),
    decreases s.len(),
{
    if s.len() > 0 {
        lemma_sat_full(s.drop_last(), done);
        lemma_sat_le_len(s.drop_last(), done);
        if sat(s, done) == s.len() {
            assert forall|j: int| 0 <= j < s.len() implies done.contains(#[trigger] s[j]) by {
                if j < s.len() - 1 {
                    assert(s.drop_last()[j] == s[j]);
                }
            }
        }
        if forall|j: int| 0 <= j < s.len() ==> done.contains(#[trigger] s[j]) {
            assert forall|j: int| 0 <= j < s.drop_last().len() implies done.contains(
                #[trigger] s.drop_last()[j],
            ) by {
                assert(s.drop_last()[j] == s[j]);
            }
            assert(done.contains(s[s.len() - 1]));
        }
    }
}

/// The number of dependencies an id waits for: 0 for an id that names no
/// reference.
pub open spec fn target_of(t: Option<usize>) -> nat {
    match t {
        Some(v) => v as nat,
        None => 0,
    }
}

/// The number of ids below `n` whose satisfied-dependency count is below
/// its target.
pub open spec fn num_unreached(counts: Seq<usize>, targets: Seq<Option<usize>>, n: int) -> nat
    decreases n,
{
    if n <= 0 {
        0
    } else {
        num_unreached(counts, targets, n - 1) + if counts[n - 1] < target_of(targets[n - 1]) {
            1nat
        } else {
            0nat
        }
    }
}

proof fn lemma_unreached_step(
    counts: Seq<usize>,
    targets: Seq<Option<usize>>,
    d: int,
    v: usize,
    n: int,
)
    requires
        0 <= d < counts.len(),
        counts.len() == targets.len(),
        0 <= n <= counts.len(),
        counts[d] < v <= target_of(targets[d]),
    ensures
        num_unreached(counts.update(d, v), targets, n) + (if d < n && v == target_of(targets[d]) {
            1nat
        } else {
            0nat
        }) == num_unreached(counts, targets, n),
    decreases n,
{
    if n > 0 {
        lemma_unreached_step(counts, targets, d, v, n - 1);
    }
}


proof fn lemma_nodup_subset_len(a: Seq<usize>, b: Seq<usize>)
    requires
        a.no_duplicates(),
        forall|i: int| 0 <= i < a.len() ==> b.contains(#[trigger] a[i]),
    ensures
        a.len() <= b.len(),
{
    broadcast use vstd::seq_lib::seq_to_set_is_finite;
    a.unique_seq_to_set();
    b.lemma_cardinality_of_set();
    assert(a.to_set().subset_of(b.to_set())) by {
        assert forall|x: usize| a.to_set().contains(x) implies b.to_set().contains(x) by {
            let i = choose|i: int| 0 <= i < a.len() && a[i] == x;
            assert(b.contains(a[i]));
        }
    }
    vstd::set_lib::lemma_len_subset(a.to_set(), b.to_set());
}

/// The ids of `refs`, in order.
pub open spec fn ids_of(refs: Seq<Reference>) -> Seq<usize> {
    Seq::new(refs.len(), |k: int| refs[k].id)
}

/// A duplicate-free sequence of reference ids is no longer than `refs`.
proof fn lemma_ref_ids_len(refs: Seq<Reference>, s: Seq<usize>)
    requires
        s.no_duplicates(),
        forall|i: int| 0 <= i < s.len() ==> is_ref_id(refs, #[trigger] s[i]),
    ensures
        s.len() <= refs.len(),
{
    assert forall|i: int| 0 <= i < s.len() implies ids_of(refs).contains(#[trigger] s[i]) by {
        let k = choose|k: int| 0 <= k < refs.len() && (#[trigger] refs[k]).id == s[i];
        assert(ids_of(refs)[k] == s[i]);
    }
    lemma_nodup_subset_len(s, ids_of(refs));
}

/// In a graph with a topological order, the first node of the order is a leaf.
proof fn lemma_topological_order_has_leaf(refs: Seq<Reference>, order: Seq<usize>)
    requires
        is_topological_order(refs, order),
        refs.len() > 0,
    ensures
        has_leaf(refs),
{
    assert(children_precede(refs, order, 0));
    assert(is_ref_id(refs, order[0]));
    let k = choose|k: int| 0 <= k < refs.len() && (#[trigger] refs[k]).id == order[0];
    if refs[k].child_ids@.len() > 0 {
        assert(order.take(0).contains(refs[k].child_ids@[0]));
    }
}

proof fn lemma_single_rooted_nonempty(refs: Seq<Reference>)
    requires
        has_one_root(refs),
    ensures
        refs.len() > 0,
{
    broadcast use vstd::seq_lib::group_filter_ensures;
    if refs.len() == 0 {
        reveal_with_fuel(Seq::<_>::filter, 1);
        assert(num_roots(refs) == 0);
    }
}

/// Once the scheduling loop has run dry, every node of any topological order
/// has been scheduled.
proof fn lemma_schedule_complete(
    refs: Seq<Reference>,
    order: Seq<usize>,
    done: Seq<usize>,
    counts: Seq<usize>,
    m: int,
)
    requires
        unique_ids(refs),
        is_topological_order(refs, order),
        0 <= m <= order.len(),
        forall|k: int|
            0 <= k < refs.len() ==> counts[(#[trigger] refs[k]).id as int] == sat(
                refs[k].child_ids@,
                done,
            ),
        forall|k: int|
            0 <= k < refs.len() ==> (done.contains((#[trigger] refs[k]).id) <==> counts[refs[k].id as int]
                == refs[k].child_ids@.len()),
    ensures
        forall|i: int| 0 <= i < m ==> done.contains(#[trigger] order[i]),
    decreases m,
{
    if m > 0 {
        lemma_schedule_complete(refs, order, done, counts, m - 1);
        let i = m - 1;
        assert(is_ref_id(refs, order[i]));
        assert(children_precede(refs, order, i));
        let k = choose|k: int| 0 <= k < refs.len() && (#[trigger] refs[k]).id == order[i];
        let ch = refs[k].child_ids@;
        assert forall|j: int| 0 <= j < ch.len() implies done.contains(#[trigger] ch[j]) by {
            assert(order.take(i).contains(refs[k].child_ids@[j]));
            let i2 = choose|i2: int| 0 <= i2 < order.take(i).len() && order.take(i)[i2] == ch[j];
            assert(order[i2] == ch[j]);
        }
        lemma_sat_full(ch, done);
    }
}

fn empty_lists(n: usize) -> (lists: Vec<Vec<usize>>)
    ensures
        lists.len() == n,
        forall|i: int| 0 <= i < n ==> (#[trigger] lists@[i])@.len() == 0,
{
    let mut lists: Vec<Vec<usize>> = Vec::new();
    while lists.len() < n
        invariant
            lists.len() <= n,
            forall|i: int| 0 <= i < lists.len() ==> (#[trigger] lists@[i])@.len() == 0,
        decreases n - lists.len(),
    {
        lists.push(Vec::new());
    }
    lists
}

fn filled<T: Copy>(value: T, n: usize) -> (v: Vec<T>)
    ensures
        v.len() == n,
        forall|i: int| 0 <= i < n ==> #[trigger] v@[i] == value,
{
    let mut v: Vec<T> = Vec::new();
    while v.len() < n
        invariant
            v.len() <= n,
            forall|i: int| 0 <= i < v.len() ==> #[trigger] v@[i] == value,
        decreases n - v.len(),
    {
        v.push(value);
    }
    v
}


/// Some reference among the first `i` has id `x`.
pub open spec fn id_among(refs: Seq<Reference>, x: usize, i: int) -> bool {
    exists|k: int| 0 <= k < i && (#[trigger] refs[k]).id == x
}

/// Some reference among the first `i` has id `x` and no children.
pub open spec fn leaf_among(refs: Seq<Reference>, x: usize, i: int) -> bool {
    exists|k: int| 0 <= k < i && (#[trigger] refs[k]).id == x && refs[k].child_ids@.len() == 0
}

proof fn lemma_sat_empty(s: Seq<usize>)
    ensures
        sat(s, Seq::empty()) == 0,
    decreases s.len(),
{
    if s.len() > 0 {
        lemma_sat_empty(s.drop_last());
    }
}

/// Schedules `references` as they are: the graph must have exactly one
/// root, every node connected to it, and at least one leaf; the schedule
/// then lists the nodes so that every node follows all of its children
/// (dependencies). Scheduling fails if some node can never be reached that
/// way (a cycle, or a dependency on a missing node).
pub(crate) fn schedule_references(references: &Vec<Reference>, max_id: usize) -> (result: Result<
    Vec<usize>,
    ScheduleError,
>)
    requires
        is_single_rooted(references@) ==> ids_within(references@, max_id) && max_id < usize::MAX,
    ensures
        !is_single_rooted(references@) ==> result == Err::<Vec<usize>, ScheduleError>(
            ScheduleError::NotSingleRooted,
        ),
        is_single_rooted(references@) && !has_leaf(references@) ==> result == Err::<
            Vec<usize>,
            ScheduleError,
        >(ScheduleError::NoLeaves),
        match result {
            Ok(schedule) => {
                &&& is_single_rooted(references@)
                &&& has_leaf(references@)
                &&& schedule@.len() == references@.len()
                &&& forall|j: int| 0 <= j < schedule@.len() ==> is_ref_id(references@, #[trigger] schedule@[j])
            },
            Err(ScheduleError::Incomplete { received, scheduled }) => {
                &&& is_single_rooted(references@)
                &&& has_leaf(references@)
                &&& received == references@.len()
                &&& scheduled != received
            },
            Err(ScheduleError::NotSingleRooted) => !is_single_rooted(references@),
            Err(ScheduleError::NoLeaves) => is_single_rooted(references@) && !has_leaf(references@),
            Err(_) => false,
        },
        unique_ids(references@) ==> (result is Ok <==> (is_single_rooted(references@)
            && has_topological_order(references@))),
        unique_ids(references@) ==> (result matches Ok(schedule) ==> is_topological_order(
            references@,
            schedule@,
        )),
{
    // Graph must have exactly one root since our final audio sample comes from the last executed node
    if !is_graph_single_rooted(references) {
        return Err(ScheduleError::NotSingleRooted);
    }
    let ghost refs = references@;
    let ghost u = unique_ids(refs);
    let n = max_id + 1;
    let mut id_to_dependent_ids = empty_lists(n);
    let mut id_to_num_dependencies: Vec<Option<usize>> = filled(None, n);
    let mut id_to_num_dependencies_satisfied: Vec<usize> = filled(0, n);
    let mut stack: Vec<usize> = Vec::new();  // For DFS from leaf nodes

    let mut i: usize = 0;
    while i < references.len()
        invariant
            refs == references@,
            u == unique_ids(refs),
            ids_within(refs, max_id),
            n == max_id + 1,
            0 <= i <= refs.len(),
            id_to_dependent_ids.len() == n,
            id_to_num_dependencies.len() == n,
            id_to_num_dependencies_satisfied.len() == n,
            forall|x: int| 0 <= x < n ==> id_to_num_dependencies_satisfied@[x] == 0,
            forall|x: int|
                0 <= x < n ==> ((#[trigger] id_to_num_dependencies@[x]) is Some <==> id_among(
                    refs,
                    x as usize,
                    i as int,
                )),
            forall|c: int, j: int|
                0 <= c < n && 0 <= j < id_to_dependent_ids@[c]@.len() ==> (#[trigger] id_to_dependent_ids@[c]@[j]) < n,
            forall|j: int| 0 <= j < stack.len() ==> (#[trigger] stack@[j]) < n,
            forall|j: int| 0 <= j < stack.len() ==> leaf_among(refs, #[trigger] stack@[j], i as int),
            forall|c: int, j: int|
                0 <= c < n && 0 <= j < id_to_dependent_ids@[c]@.len() ==> is_ref_id(
                    refs,
                    #[trigger] id_to_dependent_ids@[c]@[j],
                ),
            forall|k: int| 0 <= k < i && #[trigger] refs[k].child_ids@.len() == 0 ==> stack@.contains(refs[k].id),
            u ==> stack@.no_duplicates(),
            u ==> forall|k: int|
                0 <= k < i ==> id_to_num_dependencies@[(#[trigger] refs[k]).id as int] == Some(refs[k].child_ids.len()),
            u ==> forall|c: int, k: int|
                0 <= c < n && 0 <= k < refs.len() ==> #[trigger] occ(
                    id_to_dependent_ids@[c]@,
                    (#[trigger] refs[k]).id,
                ) == if k < i { occ(refs[k].child_ids@, c as usize) } else { 0 },
        decreases refs.len() - i,
    {
        let id = references[i].id;
        let dependency_ids = &references[i].child_ids;
        proof {
            assert(refs[i as int].id <= max_id);
        }
        let mut idx: usize = 0;
        while idx < dependency_ids.len()
            invariant
                refs == references@,
                u == unique_ids(refs),
                ids_within(refs, max_id),
                n == max_id + 1,
                0 <= i < refs.len(),
                id == refs[i as int].id,
                dependency_ids@ == refs[i as int].child_ids@,
                0 <= idx <= dependency_ids.len(),
                id_to_dependent_ids.len() == n,
                forall|c: int, j: int|
                    0 <= c < n && 0 <= j < id_to_dependent_ids@[c]@.len() ==> (#[trigger] id_to_dependent_ids@[c]@[j]) < n,
                forall|c: int, j: int|
                    0 <= c < n && 0 <= j < id_to_dependent_ids@[c]@.len() ==> is_ref_id(
                        refs,
                        #[trigger] id_to_dependent_ids@[c]@[j],
                    ),
                u ==> forall|c: int, k: int|
                    0 <= c < n && 0 <= k < refs.len() ==> #[trigger] occ(
                        id_to_dependent_ids@[c]@,
                        (#[trigger] refs[k]).id,
                    ) == if k < i {
                        occ(refs[k].child_ids@, c as usize)
                    } else if k == i {
                        occ(refs[k].child_ids@.take(idx as int), c as usize)
                    } else {
                        0
                    },
            decreases dependency_ids.len() - idx,
        {
            let child = dependency_ids[idx];
            proof {
                assert(refs[i as int].child_ids@[idx as int] <= max_id);
            }
            let ghost before = id_to_dependent_ids@;
            id_to_dependent_ids[child].push(id);
            proof {
                assert forall|c: int, k: int|
                    u && 0 <= c < n && 0 <= k < refs.len() implies #[trigger] occ(
                        id_to_dependent_ids@[c]@,
                        (#[trigger] refs[k]).id,
                    ) == if k < i {
                        occ(refs[k].child_ids@, c as usize)
                    } else if k == i {
                        occ(refs[k].child_ids@.take(idx + 1), c as usize)
                    } else {
                        0
                    } by {
                    lemma_occ_take_step(refs[i as int].child_ids@, idx as int, c as usize);
                    if c == child {
                        lemma_occ_push(before[c]@, id, refs[k].id);
                        assert(id_to_dependent_ids@[c]@ == before[c]@.push(id));
                        if k != i {
                            assert(refs[k].id != id);
                        }
                    } else {
                        assert(id_to_dependent_ids@[c] == before[c]);
                    }
                }
                assert forall|c: int, j: int|
                    0 <= c < n && 0 <= j < id_to_dependent_ids@[c]@.len() implies (#[trigger] id_to_dependent_ids@[c]@[j]) < n
                        && is_ref_id(refs, id_to_dependent_ids@[c]@[j]) by {
                    if c == child {
                        assert(id_to_dependent_ids@[c]@ == before[c]@.push(id));
                        if j < before[c]@.len() {
                            assert(id_to_dependent_ids@[c]@[j] == before[c]@[j]);
                        } else {
                            assert(refs[i as int].id == id);
                        }
                    } else {
                        assert(id_to_dependent_ids@[c] == before[c]);
                    }
                }
            }
            idx = idx + 1;
        }
        proof {
            assert(refs[i as int].child_ids@.take(idx as int) =~= refs[i as int].child_ids@);
        }
        id_to_num_dependencies.set(id, Some(dependency_ids.len()));

        let ghost stack_before = stack@;
        // Leaf nodes must be first in the schedule
        if dependency_ids.len() == 0 {
            proof {
                if u {
                    assert forall|j: int| 0 <= j < stack.len() implies #[trigger] stack@[j] != id by {
                        let k = choose|k: int| 0 <= k < i && (#[trigger] refs[k]).id == stack@[j];
                        assert(refs[k].id != refs[i as int].id);
                    }
                }
            }
            stack.push(id);
        }
        proof {
            assert forall|x: int|
                0 <= x < n implies ((#[trigger] id_to_num_dependencies@[x]) is Some <==> id_among(
                refs,
                x as usize,
                i + 1,
            )) by {
                if x == id {
                    assert(refs[i as int].id == id);
                } else if id_among(refs, x as usize, i + 1) {
                    let k = choose|k: int| 0 <= k < i + 1 && (#[trigger] refs[k]).id == x;
                    assert(k < i);
                }
            }
            assert forall|j: int| 0 <= j < stack.len() implies leaf_among(
                refs,
                #[trigger] stack@[j],
                i + 1,
            ) by {
                if j == stack.len() - 1 && dependency_ids@.len() == 0 {
                    assert(refs[i as int].id == stack@[j]);
                } else {
                    assert(stack@[j] == stack_before[j]);
                    assert(leaf_among(refs, stack_before[j], i as int));
                    let k = choose|k: int|
                        0 <= k < i && (#[trigger] refs[k]).id == stack_before[j]
                            && refs[k].child_ids@.len() == 0;
                }
            }
            assert forall|k: int|
                0 <= k < i + 1 && #[trigger] refs[k].child_ids@.len() == 0 implies stack@.contains(
                refs[k].id,
            ) by {
                if k == i {
                    assert(stack@[stack.len() - 1] == refs[k].id);
                } else {
                    assert(stack_before.contains(refs[k].id));
                    let j = choose|j: int| 0 <= j < stack_before.len() && stack_before[j] == refs[k].id;
                    assert(stack@[j] == refs[k].id);
                }
            }
            if u {
                assert forall|k: int|
                    0 <= k < i + 1 implies id_to_num_dependencies@[(#[trigger] refs[k]).id as int]
                    == Some(refs[k].child_ids.len()) by {
                    if k < i {
                        assert(refs[k].id != id);
                    }
                }
            }
        }
        i = i + 1;
    }
    let ghost targets = id_to_num_dependencies@;
    proof {
        assert forall|x: int| 0 <= x < n implies ((#[trigger] targets[x]) is Some <==> is_ref_id(refs, x as usize)) by {
            if is_ref_id(refs, x as usize) {
                let k = choose|k: int| 0 <= k < refs.len() && (#[trigger] refs[k]).id == x as usize;
                assert(id_among(refs, x as usize, refs.len() as int));
            }
        }
    }

    // Graph must have leaves
    if stack.len() == 0 {
        proof {
            if u && is_single_rooted(refs) && has_topological_order(refs) {
                lemma_single_rooted_nonempty(refs);
                let order = choose|order: Seq<usize>| is_topological_order(refs, order);
                lemma_topological_order_has_leaf(refs, order);
            }
            if has_leaf(refs) {
                let k = choose|k: int| 0 <= k < refs.len() && (#[trigger] refs[k]).child_ids@.len() == 0;
                assert(stack@.contains(refs[k].id));
            }
        }
        return Err(ScheduleError::NoLeaves);
    }
    proof {
        if u {
            assert forall|k: int| 0 <= k < refs.len() implies id_to_num_dependencies_satisfied@[(#[trigger] refs[k]).id as int]
                == sat(refs[k].child_ids@, Seq::<usize>::empty()) by {
                lemma_sat_empty(refs[k].child_ids@);
            }
            assert forall|k: int|
                0 <= k < refs.len() implies ((stack@.contains((#[trigger] refs[k]).id) || Seq::<usize>::empty().contains(
                refs[k].id,
            )) <==> id_to_num_dependencies_satisfied@[refs[k].id as int]
                == refs[k].child_ids@.len()) by {
                if stack@.contains(refs[k].id) {
                    let j = choose|j: int| 0 <= j < stack.len() && stack@[j] == refs[k].id;
                    assert(leaf_among(refs, stack@[j], refs.len() as int));
                    let k2 = choose|k2: int|
                        0 <= k2 < refs.len() && (#[trigger] refs[k2]).id == stack@[j]
                            && refs[k2].child_ids@.len() == 0;
                    assert(k2 == k);
                }
            }
        }
        assert forall|j: int| 0 <= j < stack.len() implies is_ref_id(refs, #[trigger] stack@[j]) by {
            assert(leaf_among(refs, stack@[j], refs.len() as int));
            let k2 = choose|k2: int|
                0 <= k2 < refs.len() && (#[trigger] refs[k2]).id == stack@[j]
                    && refs[k2].child_ids@.len() == 0;
        }
    }

    proof {
        assert(leaf_among(refs, stack@[0], refs.len() as int));
        let k = choose|k: int|
            0 <= k < refs.len() && (#[trigger] refs[k]).id == stack@[0] && refs[k].child_ids@.len() == 0;
        assert(has_leaf(refs));
    }
    let mut schedule: Vec<usize> = Vec::new();
    while stack.len() > 0
        invariant
            has_leaf(refs),
            refs == references@,
            u == unique_ids(refs),
            ids_within(refs, max_id),
            n == max_id + 1,
            id_to_dependent_ids.len() == n,
            id_to_num_dependencies@ == targets,
            targets.len() == n,
            id_to_num_dependencies_satisfied.len() == n,
            forall|c: int, j: int|
                0 <= c < n && 0 <= j < id_to_dependent_ids@[c]@.len() ==> (#[trigger] id_to_dependent_ids@[c]@[j]) < n,
            forall|c: int, j: int|
                0 <= c < n && 0 <= j < id_to_dependent_ids@[c]@.len() ==> is_ref_id(
                    refs,
                    #[trigger] id_to_dependent_ids@[c]@[j],
                ),
            forall|j: int| 0 <= j < stack.len() ==> (#[trigger] stack@[j]) < n,
            u ==> forall|k: int|
                0 <= k < refs.len() ==> targets[(#[trigger] refs[k]).id as int] == Some(refs[k].child_ids.len()),
            u ==> forall|c: int, k: int|
                0 <= c < n && 0 <= k < refs.len() ==> #[trigger] occ(
                    id_to_dependent_ids@[c]@,
                    (#[trigger] refs[k]).id,
                ) == occ(refs[k].child_ids@, c as usize),
            u ==> forall|k: int|
                0 <= k < refs.len() ==> id_to_num_dependencies_satisfied@[(#[trigger] refs[k]).id as int]
                    == sat(refs[k].child_ids@, schedule@),
            u ==> forall|k: int|
                0 <= k < refs.len() ==> ((stack@.contains((#[trigger] refs[k]).id) || schedule@.contains(
                    refs[k].id,
                )) <==> id_to_num_dependencies_satisfied@[refs[k].id as int]
                    == refs[k].child_ids@.len()),
            u ==> stack@.no_duplicates(),
            u ==> schedule@.no_duplicates(),
            u ==> forall|a: int, b: int|
                0 <= a < stack.len() && 0 <= b < schedule.len() ==> #[trigger] stack@[a]
                    != #[trigger] schedule@[b],
            forall|j: int| 0 <= j < stack.len() ==> is_ref_id(refs, #[trigger] stack@[j]),
            forall|j: int| 0 <= j < schedule.len() ==> is_ref_id(refs, #[trigger] schedule@[j]),
            u ==> forall|j: int| 0 <= j < schedule.len() ==> #[trigger] children_precede(refs, schedule@, j),
        decreases stack.len() + num_unreached(id_to_num_dependencies_satisfied@, targets, n as int),
    {
        let ghost measure = stack.len() + num_unreached(
            id_to_num_dependencies_satisfied@,
            targets,
            n as int,
        );
        let ghost done_prev = schedule@;
        let ghost stack_prev = stack@;
        let popped_id = stack.pop().unwrap();
        schedule.push(popped_id);
        let dependents = &id_to_dependent_ids[popped_id];
        proof {
            assert(stack_prev[stack_prev.len() - 1] == popped_id);
            assert(stack_prev =~= stack@.push(popped_id));
            assert(is_ref_id(refs, popped_id));
            assert forall|jj: int| 0 <= jj < stack.len() implies is_ref_id(refs, #[trigger] stack@[jj]) by {
                assert(stack@[jj] == stack_prev[jj]);
            }
            assert forall|jj: int| 0 <= jj < schedule.len() implies is_ref_id(refs, #[trigger] schedule@[jj]) by {
                if jj < done_prev.len() {
                    assert(schedule@[jj] == done_prev[jj]);
                }
            }
            if u {
                let kp = choose|kp: int| 0 <= kp < refs.len() && (#[trigger] refs[kp]).id == popped_id;
                assert(stack_prev.contains(popped_id));
                lemma_sat_full(refs[kp].child_ids@, done_prev);
                assert(!done_prev.contains(popped_id)) by {
                    if done_prev.contains(popped_id) {
                        let b = choose|b: int| 0 <= b < done_prev.len() && done_prev[b] == popped_id;
                        assert(stack_prev[stack_prev.len() - 1] != done_prev[b]);
                    }
                }
                assert forall|k: int| 0 <= k < refs.len() implies sat(
                    (#[trigger] refs[k]).child_ids@,
                    schedule@,
                ) == sat(refs[k].child_ids@, done_prev) + occ(refs[k].child_ids@, popped_id) by {
                    lemma_sat_push_done(refs[k].child_ids@, done_prev, popped_id);
                }
                assert forall|j: int| 0 <= j < schedule.len() implies #[trigger] children_precede(
                    refs,
                    schedule@,
                    j,
                ) by {
                    if j < done_prev.len() {
                        assert(schedule@.take(j) =~= done_prev.take(j));
                        assert(children_precede(refs, done_prev, j));
                    } else {
                        assert(schedule@.take(j) =~= done_prev);
                        assert forall|k: int, jj: int|
                            0 <= k < refs.len() && refs[k].id == schedule@[j] && 0 <= jj
                                < refs[k].child_ids@.len() implies schedule@.take(j).contains(
                            #[trigger] refs[k].child_ids@[jj],
                        ) by {
                            assert(k == kp);
                        }
                    }
                }
                assert(schedule@.no_duplicates());
                assert forall|k: int|
                    0 <= k < refs.len() implies ((stack@.contains((#[trigger] refs[k]).id)
                        || schedule@.contains(refs[k].id)) <==> (stack_prev.contains(refs[k].id)
                        || done_prev.contains(refs[k].id))) by {
                    let x = refs[k].id;
                    if stack_prev.contains(x) {
                        let a = choose|a: int| 0 <= a < stack_prev.len() && stack_prev[a] == x;
                        if a == stack_prev.len() - 1 {
                            assert(schedule@[done_prev.len() as int] == x);
                        } else {
                            assert(stack@[a] == x);
                        }
                    }
                    if done_prev.contains(x) {
                        let b = choose|b: int| 0 <= b < done_prev.len() && done_prev[b] == x;
                        assert(schedule@[b] == x);
                    }
                    if stack@.contains(x) {
                        let a = choose|a: int| 0 <= a < stack@.len() && stack@[a] == x;
                        assert(stack_prev[a] == x);
                    }
                    if schedule@.contains(x) {
                        let b = choose|b: int| 0 <= b < schedule@.len() && schedule@[b] == x;
                        if b < done_prev.len() {
                            assert(done_prev[b] == x);
                        } else {
                            assert(stack_prev[stack_prev.len() - 1] == x);
                        }
                    }
                }
                assert(dependents@.take(0) =~= Seq::<usize>::empty());
            }
        }

        let mut j: usize = 0;
        while j < dependents.len()
            invariant
                refs == references@,
                u == unique_ids(refs),
                ids_within(refs, max_id),
                n == max_id + 1,
                popped_id < n,
                id_to_dependent_ids.len() == n,
                dependents@ == id_to_dependent_ids@[popped_id as int]@,
                0 <= j <= dependents.len(),
                id_to_num_dependencies@ == targets,
                targets.len() == n,
                id_to_num_dependencies_satisfied.len() == n,
                forall|c: int, jj: int|
                    0 <= c < n && 0 <= jj < id_to_dependent_ids@[c]@.len() ==> (#[trigger] id_to_dependent_ids@[c]@[jj]) < n,
                forall|c: int, jj: int|
                    0 <= c < n && 0 <= jj < id_to_dependent_ids@[c]@.len() ==> is_ref_id(
                        refs,
                        #[trigger] id_to_dependent_ids@[c]@[jj],
                    ),
                forall|jj: int| 0 <= jj < stack.len() ==> (#[trigger] stack@[jj]) < n,
                stack.len() + num_unreached(id_to_num_dependencies_satisfied@, targets, n as int) < measure,
                schedule@ == done_prev.push(popped_id),
                u ==> !done_prev.contains(popped_id),
                u ==> forall|k: int|
                    0 <= k < refs.len() ==> targets[(#[trigger] refs[k]).id as int] == Some(refs[k].child_ids.len()),
                u ==> forall|c: int, k: int|
                    0 <= c < n && 0 <= k < refs.len() ==> #[trigger] occ(
                        id_to_dependent_ids@[c]@,
                        (#[trigger] refs[k]).id,
                    ) == occ(refs[k].child_ids@, c as usize),
                u ==> forall|k: int|
                    0 <= k < refs.len() ==> sat((#[trigger] refs[k]).child_ids@, schedule@) == sat(
                        refs[k].child_ids@,
                        done_prev,
                    ) + occ(refs[k].child_ids@, popped_id),
                u ==> forall|k: int|
                    0 <= k < refs.len() ==> id_to_num_dependencies_satisfied@[(#[trigger] refs[k]).id as int]
                        == sat(refs[k].child_ids@, done_prev) + occ(dependents@.take(j as int), refs[k].id),
                u ==> forall|k: int|
                    0 <= k < refs.len() ==> ((stack@.contains((#[trigger] refs[k]).id)
                        || schedule@.contains(refs[k].id)) <==> id_to_num_dependencies_satisfied@[refs[k].id as int]
                        == refs[k].child_ids@.len()),
                u ==> stack@.no_duplicates(),
                u ==> schedule@.no_duplicates(),
                u ==> forall|a: int, b: int|
                    0 <= a < stack.len() && 0 <= b < schedule.len() ==> #[trigger] stack@[a]
                        != #[trigger] schedule@[b],
                forall|jj: int| 0 <= jj < stack.len() ==> is_ref_id(refs, #[trigger] stack@[jj]),
                forall|jj: int| 0 <= jj < schedule.len() ==> is_ref_id(refs, #[trigger] schedule@[jj]),
                u ==> forall|jj: int| 0 <= jj < schedule.len() ==> #[trigger] children_precede(refs, schedule@, jj),
            decreases dependents.len() - j,
        {
            let dependent_id = dependents[j];
            let ghost counts_prev = id_to_num_dependencies_satisfied@;
            let ghost stack_before = stack@;
            let target = match id_to_num_dependencies[dependent_id] {
                Some(t) => t,
                None => 0,
            };
            proof {
                if u {
                    assert(is_ref_id(refs, dependent_id));
                    let kd = choose|kd: int| 0 <= kd < refs.len() && (#[trigger] refs[kd]).id == dependent_id;
                    lemma_occ_take_step(dependents@, j as int, dependent_id);
                    lemma_occ_take_le(dependents@, j + 1, dependent_id);
                    assert(occ(id_to_dependent_ids@[popped_id as int]@, refs[kd].id) == occ(refs[kd].child_ids@, popped_id));
                    lemma_sat_le_len(refs[kd].child_ids@, schedule@);
                    assert(dependents@[j as int] == dependent_id);
                    assert(occ(dependents@.take(j + 1), dependent_id) == occ(dependents@.take(j as int), dependent_id) + 1);
                    assert(occ(dependents@.take(j + 1), dependent_id) <= occ(refs[kd].child_ids@, popped_id));
                    assert(counts_prev[dependent_id as int] == sat(refs[kd].child_ids@, done_prev) + occ(dependents@.take(j as int), dependent_id));
                    assert(sat(refs[kd].child_ids@, schedule@) == sat(refs[kd].child_ids@, done_prev) + occ(refs[kd].child_ids@, popped_id));
                    assert(targets[dependent_id as int] == Some(refs[kd].child_ids.len()));
                    assert(target == refs[kd].child_ids@.len());
                    assert(counts_prev[dependent_id as int] < target);
                }
            }
            // Nodes should only be added to the stack if all their dependencies are satisfied
            if id_to_num_dependencies_satisfied[dependent_id] < target {
                let satisfied = id_to_num_dependencies_satisfied[dependent_id] + 1;
                id_to_num_dependencies_satisfied.set(dependent_id, satisfied);
                proof {
                    lemma_unreached_step(counts_prev, targets, dependent_id as int, satisfied, n as int);
                }
                if satisfied == target {
                    stack.push(dependent_id);
                }
                proof {
                    if u {
                        let kd = choose|kd: int| 0 <= kd < refs.len() && (#[trigger] refs[kd]).id == dependent_id;
                        assert(!stack_before.contains(dependent_id)) by {
                            if stack_before.contains(dependent_id) {
                                assert(stack_before.contains(refs[kd].id));
                            }
                        }
                        assert(!schedule@.contains(dependent_id)) by {
                            if schedule@.contains(dependent_id) {
                                assert(schedule@.contains(refs[kd].id));
                            }
                        }
                    }
                }
            } else {
                proof {
                    assert(!u);
                }
            }
            proof {
                if u {
                    assert(id_to_num_dependencies_satisfied@ == counts_prev.update(
                        dependent_id as int,
                        (counts_prev[dependent_id as int] + 1) as usize,
                    ));
                    assert forall|k: int|
                        0 <= k < refs.len() implies id_to_num_dependencies_satisfied@[(#[trigger] refs[k]).id as int]
                        == sat(refs[k].child_ids@, done_prev) + occ(dependents@.take(j + 1), refs[k].id) by {
                        lemma_occ_take_step(dependents@, j as int, refs[k].id);
                        assert(dependents@[j as int] == dependent_id);
                        if refs[k].id != dependent_id {
                            assert(id_to_num_dependencies_satisfied@[refs[k].id as int] == counts_prev[refs[k].id as int]);
                        }
                    }
                    assert forall|k: int|
                        0 <= k < refs.len() implies ((stack@.contains((#[trigger] refs[k]).id)
                            || schedule@.contains(refs[k].id)) <==> id_to_num_dependencies_satisfied@[refs[k].id as int]
                            == refs[k].child_ids@.len()) by {
                        let x = refs[k].id;
                        if x != dependent_id {
                            if stack@.contains(x) {
                                let a = choose|a: int| 0 <= a < stack@.len() && stack@[a] == x;
                                if a < stack_before.len() {
                                    assert(stack_before[a] == x);
                                }
                            }
                            if stack_before.contains(x) {
                                let a = choose|a: int| 0 <= a < stack_before.len() && stack_before[a] == x;
                                assert(stack@[a] == x);
                            }
                        } else if stack@.len() > stack_before.len() {
                            assert(stack@[stack_before.len() as int] == x);
                        } else {
                            assert(stack@ == stack_before);
                        }
                    }
                    assert forall|a: int, b: int|
                        0 <= a < stack.len() && 0 <= b < schedule.len() implies #[trigger] stack@[a]
                        != #[trigger] schedule@[b] by {
                        if a < stack_before.len() {
                            assert(stack@[a] == stack_before[a]);
                        }
                    }
                }
                assert forall|jj: int| 0 <= jj < stack.len() implies is_ref_id(refs, #[trigger] stack@[jj]) by {
                    if jj < stack_before.len() {
                        assert(stack@[jj] == stack_before[jj]);
                    }
                }
            }
            j = j + 1;
        }
        proof {
            if u {
                assert(dependents@.take(j as int) =~= dependents@);
            }
        }
    }

    if schedule.len() != references.len() {
        proof {
            if u && has_topological_order(refs) {
                let order = choose|order: Seq<usize>| is_topological_order(refs, order);
                lemma_schedule_complete(refs, order, schedule@, id_to_num_dependencies_satisfied@, order.len() as int);
                lemma_nodup_subset_len(order, schedule@);
                lemma_ref_ids_len(refs, schedule@);
            }
        }
        return Err(ScheduleError::Incomplete {
            received: references.len(),
            scheduled: schedule.len(),
        });
    }
    proof {
        if u {
            assert(is_topological_order(refs, schedule@));
        }
        if u && is_single_rooted(refs) && has_topological_order(refs) {
            lemma_single_rooted_nonempty(refs);
        }
    }
    Ok(schedule)
}

/// Builds a node execution schedule defining the order nodes are polled.
///
/// The references may describe a messy graph, so this first removes, in a
/// graph with more than one node, the isolated nodes (those with no
/// dependencies and no dependents). The nodes that remain must form a
/// single-rooted graph with at least one leaf; the schedule then lists them
/// so that every node follows all of its children (dependencies).
/// Scheduling fails if the remaining graph is not single-rooted, has no
/// leaf, or has a node that can never be reached that way (a cycle, or a
/// dependency on a missing node).
pub fn build_schedule(references: Vec<Reference>, max_id: usize) -> (result: Result<
    Vec<usize>,
    ScheduleError,
>)
    requires
        is_single_rooted(kept(references@)) ==> ids_within(kept(references@), max_id) && max_id
            < usize::MAX,
    ensures
        !is_single_rooted(kept(references@)) ==> result == Err::<Vec<usize>, ScheduleError>(
            ScheduleError::NotSingleRooted,
        ),
        is_single_rooted(kept(references@)) && !has_leaf(kept(references@)) ==> result == Err::<
            Vec<usize>,
            ScheduleError,
        >(ScheduleError::NoLeaves),
        match result {
            Ok(schedule) => {
                &&& is_single_rooted(kept(references@))
                &&& has_leaf(kept(references@))
                &&& schedule@.len() == kept(references@).len()
                &&& forall|j: int| 0 <= j < schedule@.len() ==> is_ref_id(kept(references@), #[trigger] schedule@[j])
            },
            Err(ScheduleError::Incomplete { received, scheduled }) => {
                &&& is_single_rooted(kept(references@))
                &&& has_leaf(kept(references@))
                &&& received == kept(references@).len()
                &&& scheduled != received
            },
            Err(ScheduleError::NotSingleRooted) => !is_single_rooted(kept(references@)),
            Err(ScheduleError::NoLeaves) => is_single_rooted(kept(references@)) && !has_leaf(
                kept(references@),
            ),
            Err(_) => false,
        },
        unique_ids(kept(references@)) ==> (result is Ok <==> (is_single_rooted(kept(references@))
            && has_topological_order(kept(references@)))),
        unique_ids(kept(references@)) ==> (result matches Ok(schedule) ==> is_topological_order(
            kept(references@),
            schedule@,
        )),
{
    let trimmed = remove_isolated_references(references);
    schedule_references(&trimmed, max_id)
}


/// `id` belongs to a reference with no children, and no reference lists it
/// as a child.
pub open spec fn is_isolated_id(refs: Seq<Reference>, id: usize) -> bool {
    &&& has_several_ids(refs)
    &&& exists|k: int| 0 <= k < refs.len() && (#[trigger] refs[k]).id == id && refs[k].child_ids@.len() == 0
    &&& !has_dependent(refs, id)
}

/// The graph has more than one node: two references with different ids.
pub open spec fn has_several_ids(refs: Seq<Reference>) -> bool {
    exists|a: int, b: int|
        0 <= a < refs.len() && 0 <= b < refs.len() && (#[trigger] refs[a]).id != (#[trigger] refs[b]).id
}

/// The references that remain once isolated nodes are removed.
pub open spec fn kept(refs: Seq<Reference>) -> Seq<Reference> {
    refs.filter(|r: Reference| !is_isolated_id(refs, r.id))
}

fn several_ids(references: &Vec<Reference>) -> (several: bool)
    ensures
        several == has_several_ids(references@),
{
    let ghost refs = references@;
    if references.len() == 0 {
        return false;
    }
    let first = references[0].id;
    let mut i: usize = 1;
    while i < references.len()
        invariant
            refs == references@,
            refs.len() > 0,
            first == refs[0].id,
            1 <= i <= refs.len(),
            forall|j: int| 0 <= j < i ==> (#[trigger] refs[j]).id == first,
        decreases refs.len() - i,
    {
        if references[i].id != first {
            proof {
                assert(refs[0].id != refs[i as int].id);
            }
            return true;
        }
        i = i + 1;
    }
    proof {
        if has_several_ids(refs) {
            let (a, b) = choose|a: int, b: int|
                0 <= a < refs.len() && 0 <= b < refs.len() && (#[trigger] refs[a]).id != (#[trigger] refs[b]).id;
            assert(refs[a].id == first && refs[b].id == first);
        }
    }
    false
}

/// Removes the references of isolated nodes: those with no dependencies
/// and no dependents, in a graph with more than one node. Every reference
/// that shares an id with an isolated node goes too; the others keep their
/// order. A graph of a single node is left as it is.
pub fn remove_isolated_references(references: Vec<Reference>) -> (trimmed: Vec<Reference>)
    ensures
        trimmed@ == references@.filter(|r: Reference| !is_isolated_id(references@, r.id)),
{
    let ghost refs = references@;
    let several = several_ids(&references);
    let mut isolated_node_ids: Vec<usize> = Vec::new();
    let mut i: usize = 0;
    while i < references.len()
        invariant
            refs == references@,
            several == has_several_ids(refs),
            i <= refs.len(),
            forall|x: usize|
                isolated_node_ids@.contains(x) <==> (several && exists|k: int|
                    0 <= k < i && (#[trigger] refs[k]).id == x && refs[k].child_ids@.len() == 0
                        && !has_dependent(refs, x)),
        decreases refs.len() - i,
    {
        let id = references[i].id;
        let ghost before = isolated_node_ids@;
        if several && references[i].child_ids.len() == 0 && !has_dependent_exec(&references, id) {
            isolated_node_ids.push(id);
        }
        proof {
            assert forall|x: usize|
                isolated_node_ids@.contains(x) <==> (several && exists|k: int|
                    0 <= k < i + 1 && (#[trigger] refs[k]).id == x && refs[k].child_ids@.len() == 0
                        && !has_dependent(refs, x)) by {
                if isolated_node_ids@.contains(x) {
                    let j = choose|j: int| 0 <= j < isolated_node_ids@.len() && isolated_node_ids@[j] == x;
                    if j < before.len() {
                        assert(before.contains(x));
                    } else {
                        assert(refs[i as int].id == x);
                    }
                }
                if several && exists|k: int|
                    0 <= k < i + 1 && (#[trigger] refs[k]).id == x && refs[k].child_ids@.len() == 0
                        && !has_dependent(refs, x) {
                    let k = choose|k: int|
                        0 <= k < i + 1 && (#[trigger] refs[k]).id == x && refs[k].child_ids@.len() == 0
                            && !has_dependent(refs, x);
                    if k < i {
                        assert(before.contains(x));
                        let j = choose|j: int| 0 <= j < before.len() && before[j] == x;
                        assert(isolated_node_ids@[j] == x);
                    } else {
                        assert(isolated_node_ids@[isolated_node_ids@.len() - 1] == x);
                    }
                }
            }
        }
        i = i + 1;
    }

    let ghost pred = |r: Reference| !is_isolated_id(refs, r.id);
    let mut trimmed: Vec<Reference> = Vec::new();
    for reference in iter: references.into_iter()
        invariant
            refs == iter.seq(),
            pred == (|r: Reference| !is_isolated_id(refs, r.id)),
            forall|x: usize| isolated_node_ids@.contains(x) <==> is_isolated_id(refs, x),
            trimmed@ == refs.take(iter.index() as int).filter(pred),
    {
        proof {
            reveal_with_fuel(Seq::<_>::filter, 1);
            assert(refs.take(iter.index() + 1).drop_last() =~= refs.take(iter.index() as int));
        }
        if !contains_id(&isolated_node_ids, reference.id) {
            trimmed.push(reference);
        }
    }
    proof {
        assert(refs.take(refs.len() as int) =~= refs);
    }
    trimmed
}


/// Every child id names some reference.
pub open spec fn children_known(refs: Seq<Reference>) -> bool {
    forall|k: int, j: int|
        0 <= k < refs.len() && 0 <= j < refs[k].child_ids@.len() ==> is_ref_id(
            refs,
            #[trigger] refs[k].child_ids@[j],
        )
}

/// `id` names a reference and no reference lists it as a child.
pub open spec fn is_root_id(refs: Seq<Reference>, id: usize) -> bool {
    is_ref_id(refs, id) && !has_dependent(refs, id)
}

/// Finds the root of the graph: the first reference that no reference lists
/// as a child. Fails on a child id that names no reference, and on a graph
/// in which every node has a dependent (an empty or cyclic graph).
pub fn root_id(references: &Vec<Reference>) -> (result: Result<usize, ScheduleError>)
    ensures
        match result {
            Ok(id) => {
                &&& children_known(references@)
                &&& exists|k: int|
                    0 <= k < references@.len() && (#[trigger] references@[k]).id == id
                        && !has_dependent(references@, id) && forall|k2: int|
                        0 <= k2 < k ==> has_dependent(references@, (#[trigger] references@[k2]).id)
            },
            Err(ScheduleError::UnknownChild { id }) => {
                &&& !is_ref_id(references@, id)
                &&& exists|k: int, j: int|
                    0 <= k < references@.len() && 0 <= j < references@[k].child_ids@.len()
                        && #[trigger] references@[k].child_ids@[j] == id
            },
            Err(ScheduleError::EmptyGraph) => {
                &&& children_known(references@)
                &&& forall|k: int|
                    0 <= k < references@.len() ==> has_dependent(references@, (#[trigger] references@[k]).id)
            },
            Err(_) => false,
        },
        result is Ok <==> (children_known(references@) && exists|k: int|
            0 <= k < references@.len() && is_root_id(references@, (#[trigger] references@[k]).id)),
{
    broadcast use vstd::std_specs::hash::group_hash_axioms;

    let ghost refs = references@;
    // Whether some reference lists the id as a child, for every reference id.
    let mut id_to_has_dependent: HashMap<usize, bool> = HashMap::new();
    let mut k: usize = 0;
    while k < references.len()
        invariant
            refs == references@,
            k <= refs.len(),
            forall|x: usize| #[trigger] id_to_has_dependent@.contains_key(x) <==> id_among(refs, x, k as int),
            forall|x: usize| #[trigger] id_to_has_dependent@.contains_key(x) ==> !id_to_has_dependent@[x],
        decreases refs.len() - k,
    {
        id_to_has_dependent.insert(references[k].id, false);
        proof {
            assert forall|x: usize| #[trigger] id_to_has_dependent@.contains_key(x) <==> id_among(refs, x, k + 1) by {
                if x == refs[k as int].id {
                    assert(refs[k as int].id == x);
                } else if id_among(refs, x, k + 1) {
                    let k2 = choose|k2: int| 0 <= k2 < k + 1 && (#[trigger] refs[k2]).id == x;
                    assert(k2 < k);
                }
            }
        }
        k = k + 1;
    }
    proof {
        assert forall|x: usize| #[trigger] id_to_has_dependent@.contains_key(x) <==> is_ref_id(refs, x) by {
            if is_ref_id(refs, x) {
                let k2 = choose|k2: int| 0 <= k2 < refs.len() && (#[trigger] refs[k2]).id == x;
                assert(id_among(refs, x, refs.len() as int));
            }
        }
    }
    let mut k: usize = 0;
    while k < references.len()
        invariant
            refs == references@,
            k <= refs.len(),
            forall|x: usize| #[trigger] id_to_has_dependent@.contains_key(x) <==> is_ref_id(refs, x),
            forall|x: usize|
                #[trigger] id_to_has_dependent@.contains_key(x) ==> (id_to_has_dependent@[x] <==> exists|k2: int|
                    0 <= k2 < k && (#[trigger] refs[k2]).child_ids@.contains(x)),
            forall|k2: int, j: int|
                0 <= k2 < k && 0 <= j < refs[k2].child_ids@.len() ==> is_ref_id(
                    refs,
                    #[trigger] refs[k2].child_ids@[j],
                ),
        decreases refs.len() - k,
    {
        let child_ids = &references[k].child_ids;
        let mut j: usize = 0;
        while j < child_ids.len()
            invariant
                refs == references@,
                k < refs.len(),
                child_ids@ == refs[k as int].child_ids@,
                j <= child_ids.len(),
                forall|x: usize| #[trigger] id_to_has_dependent@.contains_key(x) <==> is_ref_id(refs, x),
                forall|x: usize|
                    #[trigger] id_to_has_dependent@.contains_key(x) ==> (id_to_has_dependent@[x] <==> (exists|k2: int|
                        0 <= k2 < k && (#[trigger] refs[k2]).child_ids@.contains(x)) || child_ids@.take(
                        j as int,
                    ).contains(x)),
                forall|k2: int, j2: int|
                    0 <= k2 < k && 0 <= j2 < refs[k2].child_ids@.len() ==> is_ref_id(
                        refs,
                        #[trigger] refs[k2].child_ids@[j2],
                    ),
                forall|j2: int| 0 <= j2 < j ==> is_ref_id(refs, #[trigger] refs[k as int].child_ids@[j2]),
            decreases child_ids.len() - j,
        {
            let child_id = child_ids[j];
            if !id_to_has_dependent.contains_key(&child_id) {
                proof {
                    assert(refs[k as int].child_ids@[j as int] == child_id);
                }
                return Err(ScheduleError::UnknownChild { id: child_id });
            }
            let ghost before = id_to_has_dependent@;
            id_to_has_dependent.insert(child_id, true);
            proof {
                let pre = child_ids@.take(j as int);
                let cur = child_ids@.take(j + 1);
                assert(cur =~= pre.push(child_id));
                assert forall|x: usize|
                    #[trigger] id_to_has_dependent@.contains_key(x) implies (id_to_has_dependent@[x] <==> (exists|k2: int|
                        0 <= k2 < k && (#[trigger] refs[k2]).child_ids@.contains(x)) || cur.contains(x)) by {
                    if x != child_id {
                        assert(before.contains_key(x));
                        if pre.contains(x) {
                            let i = choose|i: int| 0 <= i < pre.len() && pre[i] == x;
                            assert(cur[i] == x);
                        }
                        if cur.contains(x) {
                            let i = choose|i: int| 0 <= i < cur.len() && cur[i] == x;
                            assert(pre[i] == x);
                        }
                    } else {
                        assert(cur[j as int] == x);
                    }
                }
            }
            j = j + 1;
        }
        proof {
            assert(child_ids@.take(child_ids@.len() as int) =~= child_ids@);
            assert forall|x: usize|
                #[trigger] id_to_has_dependent@.contains_key(x) implies (id_to_has_dependent@[x] <==> exists|k2: int|
                    0 <= k2 < k + 1 && (#[trigger] refs[k2]).child_ids@.contains(x)) by {
                if exists|k2: int| 0 <= k2 < k + 1 && (#[trigger] refs[k2]).child_ids@.contains(x) {
                    let k2 = choose|k2: int| 0 <= k2 < k + 1 && (#[trigger] refs[k2]).child_ids@.contains(x);
                    if k2 == k {
                        assert(child_ids@.contains(x));
                    }
                }
            }
        }
        k = k + 1;
    }
    let mut k: usize = 0;
    while k < references.len()
        invariant
            refs == references@,
            k <= refs.len(),
            children_known(refs),
            forall|x: usize| #[trigger] id_to_has_dependent@.contains_key(x) <==> is_ref_id(refs, x),
            forall|x: usize|
                #[trigger] id_to_has_dependent@.contains_key(x) ==> (id_to_has_dependent@[x] <==> has_dependent(refs, x)),
            forall|k2: int| 0 <= k2 < k ==> has_dependent(refs, (#[trigger] refs[k2]).id),
        decreases refs.len() - k,
    {
        let id = references[k].id;
        proof {
            assert(is_ref_id(refs, id));
        }
        let listed = *id_to_has_dependent.get(&id).unwrap();
        if !listed {
            return Ok(id);
        }
        k = k + 1;
    }
    Err(ScheduleError::EmptyGraph)
}

/// The children of all references with id `id`, concatenated in order.
pub open spec fn merged_children(refs: Seq<Reference>, id: usize) -> Seq<usize>
    decreases refs.len(),
{
    if refs.len() == 0 {
        Seq::empty()
    } else {
        merged_children(refs.drop_last(), id) + if refs.last().id == id {
            refs.last().child_ids@
        } else {
            Seq::empty()
        }
    }
}

/// Every dependency of every node with id `id` is among the merged children
/// of `id`.
pub proof fn lemma_merged_children_keep_all(refs: Seq<Reference>, k: int, j: int)
    requires
        0 <= k < refs.len(),
        0 <= j < refs[k].child_ids@.len(),
    ensures
        merged_children(refs, refs[k].id).contains(refs[k].child_ids@[j]),
    decreases refs.len(),
{
    let id = refs[k].id;
    let init = refs.drop_last();
    let tail = if refs.last().id == id { refs.last().child_ids@ } else { Seq::<usize>::empty() };
    assert(merged_children(refs, id) == merged_children(init, id) + tail);
    if k < refs.len() - 1 {
        assert(init[k] == refs[k]);
        lemma_merged_children_keep_all(init, k, j);
        let i = choose|i: int| 0 <= i < merged_children(init, id).len() && merged_children(init, id)[i]
            == refs[k].child_ids@[j];
        assert(merged_children(refs, id)[i] == refs[k].child_ids@[j]);
    } else {
        assert(refs.last() == refs[k]);
        let len0 = merged_children(init, id).len();
        assert(merged_children(refs, id)[len0 + j] == refs[k].child_ids@[j]);
    }
}

/// Every merged child of `id` is a dependency of some node with id `id`.
pub proof fn lemma_merged_children_come_from(refs: Seq<Reference>, id: usize, i: int)
    requires
        0 <= i < merged_children(refs, id).len(),
    ensures
        exists|k: int|
            0 <= k < refs.len() && (#[trigger] refs[k]).id == id && refs[k].child_ids@.contains(
                merged_children(refs, id)[i],
            ),
    decreases refs.len(),
{
    let init = refs.drop_last();
    let tail = if refs.last().id == id { refs.last().child_ids@ } else { Seq::<usize>::empty() };
    assert(merged_children(refs, id) == merged_children(init, id) + tail);
    let len0 = merged_children(init, id).len();
    if i < len0 {
        lemma_merged_children_come_from(init, id, i);
        let k = choose|k: int|
            0 <= k < init.len() && (#[trigger] init[k]).id == id && init[k].child_ids@.contains(
                merged_children(init, id)[i],
            );
        assert(refs[k] == init[k]);
    } else {
        let k = refs.len() - 1;
        assert(refs[k] == refs.last());
        assert(refs[k].child_ids@[i - len0] == merged_children(refs, id)[i]);
    }
}

/// The nodes' dependencies keep the nodes' order: the merged children that
/// the first `m` nodes give for `id` come first among those all nodes give.
pub proof fn lemma_merged_children_in_node_order(refs: Seq<Reference>, id: usize, m: int)
    requires
        0 <= m <= refs.len(),
    ensures
        merged_children(refs.take(m), id).len() <= merged_children(refs, id).len(),
        merged_children(refs.take(m), id) == merged_children(refs, id).take(
            merged_children(refs.take(m), id).len() as int,
        ),
    decreases refs.len(),
{
    if m == refs.len() {
        assert(refs.take(m) =~= refs);
        assert(merged_children(refs, id).take(merged_children(refs, id).len() as int) =~= merged_children(refs, id));
    } else {
        let init = refs.drop_last();
        assert(init.take(m) =~= refs.take(m));
        lemma_merged_children_in_node_order(init, id, m);
        let tail = if refs.last().id == id { refs.last().child_ids@ } else { Seq::<usize>::empty() };
        assert(merged_children(refs, id) == merged_children(init, id) + tail);
        let l = merged_children(refs.take(m), id).len() as int;
        assert(merged_children(refs, id).take(l) =~= merged_children(init, id).take(l));
    }
}

/// Where ids are unique, the merged children of a node's id are exactly
/// that node's dependencies, in order.
pub proof fn lemma_merged_children_of_unique(refs: Seq<Reference>, k: int)
    requires
        unique_ids(refs),
        0 <= k < refs.len(),
    ensures
        merged_children(refs, refs[k].id) == refs[k].child_ids@,
    decreases refs.len(),
{
    let id = refs[k].id;
    let init = refs.drop_last();
    if k < refs.len() - 1 {
        assert(init[k] == refs[k]);
        lemma_merged_children_of_unique(init, k);
        assert(refs.last() == refs[refs.len() - 1]);
        assert(refs.last().id != id);
        assert(merged_children(refs, id) == merged_children(init, id) + Seq::<usize>::empty());
        assert(merged_children(init, id) + Seq::<usize>::empty() =~= merged_children(init, id));
    } else {
        assert(refs.last() == refs[k]);
        assert(!is_ref_id(init, id)) by {
            if is_ref_id(init, id) {
                let a = choose|a: int| 0 <= a < init.len() && (#[trigger] init[a]).id == id;
                assert(refs[a].id == refs[k].id);
            }
        }
        lemma_merged_children_absent(init, id);
        assert(merged_children(init, id) =~= Seq::<usize>::empty());
        assert(merged_children(refs, id) == merged_children(init, id) + refs[k].child_ids@);
        assert(Seq::<usize>::empty() + refs[k].child_ids@ =~= refs[k].child_ids@);
    }
}

/// The distinct ids of `refs`, in the order they first occur.
pub open spec fn distinct_ids(refs: Seq<Reference>) -> Seq<usize>
    decreases refs.len(),
{
    if refs.len() == 0 {
        Seq::empty()
    } else if distinct_ids(refs.drop_last()).contains(refs.last().id) {
        distinct_ids(refs.drop_last())
    } else {
        distinct_ids(refs.drop_last()).push(refs.last().id)
    }
}

proof fn lemma_distinct_ids_contains(refs: Seq<Reference>, x: usize)
    ensures
        distinct_ids(refs).contains(x) <==> is_ref_id(refs, x),
    decreases refs.len(),
{
    if refs.len() > 0 {
        let init = refs.drop_last();
        lemma_distinct_ids_contains(init, x);
        if is_ref_id(refs, x) {
            let k = choose|k: int| 0 <= k < refs.len() && (#[trigger] refs[k]).id == x;
            if k < refs.len() - 1 {
                assert(init[k].id == x);
                if !distinct_ids(init).contains(refs.last().id) {
                    let j = choose|j: int| 0 <= j < distinct_ids(init).len() && distinct_ids(init)[j] == x;
                    assert(distinct_ids(refs)[j] == x);
                }
            } else if !distinct_ids(init).contains(refs.last().id) {
                assert(distinct_ids(refs)[distinct_ids(init).len() as int] == x);
            }
        }
        if distinct_ids(refs).contains(x) {
            let j = choose|j: int| 0 <= j < distinct_ids(refs).len() && distinct_ids(refs)[j] == x;
            if j < distinct_ids(init).len() {
                assert(distinct_ids(init)[j] == x);
                let k = choose|k: int| 0 <= k < init.len() && (#[trigger] init[k]).id == x;
                assert(refs[k].id == x);
            } else {
                assert(refs[refs.len() - 1].id == x);
            }
        }
    }
}

proof fn lemma_distinct_ids_nodup(refs: Seq<Reference>)
    ensures
        distinct_ids(refs).no_duplicates(),
    decreases refs.len(),
{
    if refs.len() > 0 {
        lemma_distinct_ids_nodup(refs.drop_last());
    }
}

/// Every dependency of every node is a child of the reference with that
/// node's id.
pub open spec fn keeps_dependencies(nodes: Seq<Reference>, refs: Seq<Reference>) -> bool {
    forall|r: int, k: int, j: int|
        0 <= r < refs.len() && 0 <= k < nodes.len() && refs[r].id == nodes[k].id && 0 <= j
            < nodes[k].child_ids@.len() ==> #[trigger] refs[r].child_ids@.contains(#[trigger] nodes[k].child_ids@[j])
}

/// Every child of a reference is a dependency of some node with its id.
pub open spec fn adds_no_dependency(nodes: Seq<Reference>, refs: Seq<Reference>) -> bool {
    forall|r: int, c: usize|
        0 <= r < refs.len() && #[trigger] refs[r].child_ids@.contains(c) ==> exists|k: int|
            0 <= k < nodes.len() && (#[trigger] nodes[k]).id == refs[r].id && nodes[k].child_ids@.contains(c)
}

/// The reference with a node's id has exactly that node's dependencies.
pub open spec fn copies_references(nodes: Seq<Reference>, refs: Seq<Reference>) -> bool {
    forall|r: int, k: int|
        0 <= r < refs.len() && 0 <= k < nodes.len() && (#[trigger] refs[r]).id == (#[trigger] nodes[k]).id
            ==> refs[r].child_ids@ == nodes[k].child_ids@
}

/// Groups nodes into references, one per distinct id, in the order in which
/// ids first occur; a reference's children are those of every node with its
/// id, concatenated in order.
pub fn nodes_to_references(nodes: &Vec<Reference>) -> (result: Result<Vec<Reference>, ScheduleError>)
    ensures
        match result {
            Ok(references) => {
                &&& ids_of(references@) == distinct_ids(nodes@)
                &&& unique_ids(references@)
                &&& forall|x: usize| is_ref_id(references@, x) <==> is_ref_id(nodes@, x)
                &&& forall|k: int|
                    0 <= k < references@.len() ==> (#[trigger] references@[k]).child_ids@
                        == merged_children(nodes@, references@[k].id)
                &&& keeps_dependencies(nodes@, references@)
                &&& adds_no_dependency(nodes@, references@)
                &&& unique_ids(nodes@) ==> copies_references(nodes@, references@)
            },
            Err(_) => false,
        },
{
    broadcast use vstd::std_specs::hash::group_hash_axioms;

    let ghost all = nodes@;
    let mut references: Vec<Reference> = Vec::new();
    // The position in `references` of the reference of each id.
    let mut id_to_index: HashMap<usize, usize> = HashMap::new();
    let mut i: usize = 0;
    while i < nodes.len()
        invariant
            all == nodes@,
            i <= all.len(),
            forall|x: usize|
                #[trigger] id_to_index@.contains_key(x) <==> exists|k: int|
                    0 <= k < references@.len() && (#[trigger] references@[k]).id == x,
            forall|x: usize|
                #[trigger] id_to_index@.contains_key(x) ==> id_to_index@[x] < references@.len()
                    && references@[id_to_index@[x] as int].id == x,
            ids_of(references@) == distinct_ids(all.take(i as int)),
            forall|k: int|
                0 <= k < references@.len() ==> (#[trigger] references@[k]).child_ids@
                    == merged_children(all.take(i as int), references@[k].id),
        decreases all.len() - i,
    {
        let id = nodes[i].id;
        let ghost prefix = all.take(i as int);
        let ghost next = all.take(i + 1);
        proof {
            assert(next.drop_last() =~= prefix);
            lemma_distinct_ids_nodup(prefix);
        }
        // Find the reference of this id, creating it if it does not exist yet.
        let idx = match id_to_index.get(&id) {
            Some(index) => *index,
            None => references.len(),
        };
        if idx == references.len() {
            proof {
                assert forall|j: int| 0 <= j < references@.len() implies (#[trigger] references@[j]).id != id by {
                    if references@[j].id == id {
                        assert(id_to_index@.contains_key(id));
                    }
                }
                assert(!distinct_ids(prefix).contains(id)) by {
                    if distinct_ids(prefix).contains(id) {
                        let j = choose|j: int| 0 <= j < distinct_ids(prefix).len() && distinct_ids(prefix)[j] == id;
                        assert(references@[j].id == ids_of(references@)[j]);
                    }
                }
                assert forall|k: int|
                    0 <= k < references@.len() implies merged_children(next, (#[trigger] references@[k]).id)
                    == merged_children(prefix, references@[k].id) by {
                    assert(references@[k].id == ids_of(references@)[k]);
                    assert(distinct_ids(prefix).contains(references@[k].id));
                    assert(references@[k].id != id);
                    assert(merged_children(prefix, references@[k].id) + Seq::<usize>::empty()
                        =~= merged_children(prefix, references@[k].id));
                }
                assert(merged_children(prefix, id) =~= Seq::<usize>::empty()) by {
                    lemma_distinct_ids_contains(prefix, id);
                    lemma_merged_children_absent(prefix, id);
                }
            }
            let ghost before = references@;
            references.push(Reference { id, child_ids: Vec::new() });
            id_to_index.insert(id, idx);
            proof {
                assert(ids_of(references@) =~= distinct_ids(prefix).push(id));
                assert forall|x: usize|
                    #[trigger] id_to_index@.contains_key(x) <==> exists|k: int|
                        0 <= k < references@.len() && (#[trigger] references@[k]).id == x by {
                    if x == id {
                        assert(references@[idx as int].id == id);
                    } else if exists|k: int| 0 <= k < references@.len() && (#[trigger] references@[k]).id == x {
                        let k = choose|k: int| 0 <= k < references@.len() && (#[trigger] references@[k]).id == x;
                        assert(k < before.len());
                        assert(before[k].id == x);
                    } else if id_to_index@.contains_key(x) {
                        let k = choose|k: int| 0 <= k < before.len() && (#[trigger] before[k]).id == x;
                        assert(references@[k].id == x);
                    }
                }
                assert forall|x: usize| #[trigger] id_to_index@.contains_key(x) implies id_to_index@[x]
                    < references@.len() && references@[id_to_index@[x] as int].id == x by {
                    if x != id {
                        assert(references@[id_to_index@[x] as int] == before[id_to_index@[x] as int]);
                    }
                }
            }
        } else {
            proof {
                assert(references@[idx as int].id == id);
                assert(distinct_ids(prefix).contains(id)) by {
                    assert(ids_of(references@)[idx as int] == id);
                }
                assert forall|k: int|
                    0 <= k < references@.len() && k != idx implies merged_children(next, (#[trigger] references@[k]).id)
                    == merged_children(prefix, references@[k].id) by {
                    assert(references@[k].id == ids_of(references@)[k]);
                    assert(references@[k].id != id) by {
                        lemma_distinct_ids_nodup(prefix);
                        assert(ids_of(references@)[idx as int] == id);
                        assert(ids_of(references@)[k] != ids_of(references@)[idx as int]);
                    }
                    assert(merged_children(prefix, references@[k].id) + Seq::<usize>::empty()
                        =~= merged_children(prefix, references@[k].id));
                }
            }
        }
        proof {
            assert(ids_of(references@) == distinct_ids(next));
        }
        let ghost start = references@;
        let ghost map = id_to_index@;
        let child_ids = &nodes[i].child_ids;
        let mut j: usize = 0;
        while j < child_ids.len()
            invariant
                id_to_index@ == map,
                forall|x: usize|
                    #[trigger] map.contains_key(x) <==> exists|k: int|
                        0 <= k < start.len() && (#[trigger] start[k]).id == x,
                forall|x: usize|
                    #[trigger] map.contains_key(x) ==> map[x] < start.len() && start[map[x] as int].id == x,
                idx < references.len(),
                i < all.len(),
                references@.len() == start.len(),
                child_ids@ == all[i as int].child_ids@,
                j <= child_ids.len(),
                forall|k: int| 0 <= k < references@.len() ==> (#[trigger] references@[k]).id == start[k].id,
                forall|k: int|
                    0 <= k < references@.len() && k != idx ==> (#[trigger] references@[k]).child_ids@
                        == start[k].child_ids@,
                references@[idx as int].child_ids@ == start[idx as int].child_ids@ + child_ids@.take(j as int),
            decreases child_ids.len() - j,
        {
            references[idx].child_ids.push(child_ids[j]);
            proof {
                assert(child_ids@.take(j + 1) =~= child_ids@.take(j as int).push(child_ids@[j as int]));
            }
            j = j + 1;
        }
        proof {
            assert(child_ids@.take(j as int) =~= child_ids@);
            assert(ids_of(references@) =~= ids_of(start));
            assert forall|x: usize|
                #[trigger] id_to_index@.contains_key(x) <==> exists|k: int|
                    0 <= k < references@.len() && (#[trigger] references@[k]).id == x by {
                if exists|k: int| 0 <= k < references@.len() && (#[trigger] references@[k]).id == x {
                    let k = choose|k: int| 0 <= k < references@.len() && (#[trigger] references@[k]).id == x;
                    assert(start[k].id == x);
                }
                if id_to_index@.contains_key(x) {
                    let k = choose|k: int| 0 <= k < start.len() && (#[trigger] start[k]).id == x;
                    assert(references@[k].id == x);
                }
            }
            assert(all[i as int] == next.last());
            assert forall|k: int|
                0 <= k < references@.len() implies (#[trigger] references@[k]).child_ids@
                == merged_children(next, references@[k].id) by {
                if k == idx {
                    assert(merged_children(next, id) == merged_children(prefix, id) + all[i as int].child_ids@);
                }
            }
        }
        i = i + 1;
    }
    proof {
        assert(all.take(i as int) =~= all);
        lemma_distinct_ids_nodup(all);
        assert forall|x: usize| is_ref_id(references@, x) <==> is_ref_id(all, x) by {
            lemma_distinct_ids_contains(all, x);
            if is_ref_id(references@, x) {
                let k = choose|k: int| 0 <= k < references@.len() && (#[trigger] references@[k]).id == x;
                assert(ids_of(references@)[k] == x);
            }
            if distinct_ids(all).contains(x) {
                let k = choose|k: int| 0 <= k < distinct_ids(all).len() && distinct_ids(all)[k] == x;
                assert(references@[k].id == ids_of(references@)[k]);
            }
        }
        assert forall|a: int, b: int|
            0 <= a < references@.len() && 0 <= b < references@.len() && a != b implies (#[trigger] references@[a]).id != (
            #[trigger] references@[b]).id by {
            assert(references@[a].id == ids_of(references@)[a]);
            assert(references@[b].id == ids_of(references@)[b]);
        }
        assert forall|r: int, k: int, j: int|
            0 <= r < references@.len() && 0 <= k < nodes@.len() && references@[r].id == nodes@[k].id && 0 <= j
                < nodes@[k].child_ids@.len() implies #[trigger] references@[r].child_ids@.contains(
            #[trigger] nodes@[k].child_ids@[j],
        ) by {
            lemma_merged_children_keep_all(nodes@, k, j);
        }
        assert(keeps_dependencies(nodes@, references@));
        assert(adds_no_dependency(nodes@, references@)) by {
        assert forall|r: int, c: usize|
            0 <= r < references@.len() && #[trigger] references@[r].child_ids@.contains(c) implies exists|k: int|
            0 <= k < nodes@.len() && (#[trigger] nodes@[k]).id == references@[r].id && nodes@[k].child_ids@.contains(c) by {
            let i = choose|i: int| 0 <= i < references@[r].child_ids@.len() && references@[r].child_ids@[i] == c;
            lemma_merged_children_come_from(nodes@, references@[r].id, i);
        }
        }
        if unique_ids(nodes@) {
            assert forall|r: int, k: int|
                0 <= r < references@.len() && 0 <= k < nodes@.len() && (#[trigger] references@[r]).id == (
                #[trigger] nodes@[k]).id implies references@[r].child_ids@ == nodes@[k].child_ids@ by {
                lemma_merged_children_of_unique(nodes@, k);
            }
            assert(copies_references(nodes@, references@));
        }
    }
    Ok(references)
}

proof fn lemma_merged_children_absent(refs: Seq<Reference>, id: usize)
    requires
        !is_ref_id(refs, id),
    ensures
        merged_children(refs, id) =~= Seq::<usize>::empty(),
    decreases refs.len(),
{
    if refs.len() > 0 {
        assert(!is_ref_id(refs.drop_last(), id)) by {
            if is_ref_id(refs.drop_last(), id) {
                let k = choose|k: int| 0 <= k < refs.drop_last().len() && (#[trigger] refs.drop_last()[k]).id == id;
                assert(refs[k].id == id);
            }
        }
        lemma_merged_children_absent(refs.drop_last(), id);
        assert(refs[refs.len() - 1].id != id);
    }
}


/// The ids of the references that list `id` as a child, once per listing,
/// in the order of the references and of their children.
pub open spec fn parents_of(refs: Seq<Reference>, id: usize) -> Seq<usize>
    decreases refs.len(),
{
    if refs.len() == 0 {
        Seq::empty()
    } else {
        parents_of(refs.drop_last(), id) + Seq::new(
            occ(refs.last().child_ids@, id),
            |_i: int| refs.last().id,
        )
    }
}

proof fn lemma_occ_contains(s: Seq<usize>, x: usize)
    ensures
        occ(s, x) > 0 <==> s.contains(x),
    decreases s.len(),
{
    if s.len() > 0 {
        lemma_occ_contains(s.drop_last(), x);
        if s.contains(x) && s.last() != x {
            let i = choose|i: int| 0 <= i < s.len() && s[i] == x;
            assert(s.drop_last()[i] == x);
        }
        if s.drop_last().contains(x) {
            let i = choose|i: int| 0 <= i < s.drop_last().len() && s.drop_last()[i] == x;
            assert(s[i] == x);
        }
        if s.last() == x {
            assert(s[s.len() - 1] == x);
        }
    }
}

/// A node has parents exactly when some reference lists it as a child.
proof fn lemma_parents_nonempty(refs: Seq<Reference>, id: usize)
    ensures
        parents_of(refs, id).len() > 0 <==> has_dependent(refs, id),
    decreases refs.len(),
{
    if refs.len() > 0 {
        let init = refs.drop_last();
        lemma_parents_nonempty(init, id);
        lemma_occ_contains(refs.last().child_ids@, id);
        if has_dependent(refs, id) {
            let k = choose|k: int| 0 <= k < refs.len() && (#[trigger] refs[k]).child_ids@.contains(id);
            if k < refs.len() - 1 {
                assert(init[k] == refs[k]);
            }
        }
        if has_dependent(init, id) {
            let k = choose|k: int| 0 <= k < init.len() && (#[trigger] init[k]).child_ids@.contains(id);
            assert(refs[k] == init[k]);
        }
        if refs.last().child_ids@.contains(id) {
            assert(refs[refs.len() - 1] == refs.last());
        }
    }
}

/// Reverses the edges of the graph: maps the root and every node that is a
/// child of some node to a reference that lists its parents (dependents).
pub fn reversed_references(references: &Vec<Reference>, root_id: usize) -> (result: Result<
    HashMap<usize, Reference>,
    ScheduleError,
>)
    ensures
        match result {
            Ok(reversed) => {
                &&& forall|x: usize|
                    #[trigger] reversed@.contains_key(x) <==> (x == root_id || has_dependent(
                        references@,
                        x,
                    ))
                &&& forall|x: usize|
                    #[trigger] reversed@.contains_key(x) ==> reversed@[x].id == x
                        && reversed@[x].child_ids@ == parents_of(references@, x)
            },
            Err(_) => false,
        },
{
    broadcast use vstd::std_specs::hash::group_hash_axioms;

    let ghost refs = references@;
    let mut id_to_reference: HashMap<usize, Reference> = HashMap::new();

    // Root node isn't a child of any other node, so its reference won't be created unless we do it manually
    id_to_reference.insert(root_id, Reference { id: root_id, child_ids: Vec::new() });

    let mut i: usize = 0;
    while i < references.len()
        invariant
            refs == references@,
            i <= refs.len(),
            forall|x: usize|
                #[trigger] id_to_reference@.contains_key(x) <==> (x == root_id || parents_of(
                    refs.take(i as int),
                    x,
                ).len() > 0),
            forall|x: usize|
                #[trigger] id_to_reference@.contains_key(x) ==> id_to_reference@[x].id == x
                    && id_to_reference@[x].child_ids@ == parents_of(refs.take(i as int), x),
        decreases refs.len() - i,
    {
        let id = references[i].id;
        let child_ids = &references[i].child_ids;
        let ghost prefix = refs.take(i as int);
        let mut j: usize = 0;
        while j < child_ids.len()
            invariant
                refs == references@,
                i < refs.len(),
                prefix == refs.take(i as int),
                id == refs[i as int].id,
                child_ids@ == refs[i as int].child_ids@,
                j <= child_ids.len(),
                forall|x: usize|
                    #[trigger] id_to_reference@.contains_key(x) <==> (x == root_id || parents_of(
                        prefix,
                        x,
                    ).len() + occ(child_ids@.take(j as int), x) > 0),
                forall|x: usize|
                    #[trigger] id_to_reference@.contains_key(x) ==> id_to_reference@[x].id == x
                        && id_to_reference@[x].child_ids@ == parents_of(prefix, x) + Seq::new(
                        occ(child_ids@.take(j as int), x),
                        |_i: int| id,
                    ),
            decreases child_ids.len() - j,
        {
            let child_id = child_ids[j];
            let ghost before = id_to_reference@;
            proof {
                assert forall|x: usize| #[trigger] occ(child_ids@.take(j + 1), x) == occ(child_ids@.take(j as int), x)
                    + if child_ids@[j as int] == x { 1nat } else { 0nat } by {
                    lemma_occ_take_step(child_ids@, j as int, x);
                }
            }
            match id_to_reference.remove(&child_id) {
                Some(mut child_reference) => {
                    child_reference.child_ids.push(id);
                    proof {
                        assert(child_reference.child_ids@ =~= parents_of(prefix, child_id) + Seq::new(
                            occ(child_ids@.take(j + 1), child_id),
                            |_i: int| id,
                        ));
                    }
                    id_to_reference.insert(child_id, child_reference);
                },
                None => {
                    let mut parents: Vec<usize> = Vec::new();
                    parents.push(id);
                    proof {
                        assert(parents_of(prefix, child_id).len() == 0);
                        assert(occ(child_ids@.take(j as int), child_id) == 0);
                        assert(parents@ =~= parents_of(prefix, child_id) + Seq::new(
                            occ(child_ids@.take(j + 1), child_id),
                            |_i: int| id,
                        ));
                    }
                    id_to_reference.insert(child_id, Reference { id: child_id, child_ids: parents });
                },
            }
            proof {
                assert forall|x: usize| #[trigger] id_to_reference@.contains_key(x) && x != child_id
                    implies id_to_reference@[x].child_ids@ == parents_of(prefix, x) + Seq::new(
                    occ(child_ids@.take(j + 1), x),
                    |_i: int| id,
                ) by {
                    assert(before.contains_key(x));
                }
            }
            j = j + 1;
        }
        proof {
            let next = refs.take(i + 1);
            assert(next.drop_last() =~= prefix);
            assert(child_ids@.take(j as int) =~= child_ids@);
            assert forall|x: usize| #[trigger] id_to_reference@.contains_key(x) implies id_to_reference@[x].child_ids@
                == parents_of(next, x) by {
                assert(parents_of(next, x) == parents_of(prefix, x) + Seq::new(
                    occ(refs[i as int].child_ids@, x),
                    |_i: int| id,
                ));
            }
            assert forall|x: usize| #[trigger] id_to_reference@.contains_key(x) <==> (x == root_id
                || parents_of(next, x).len() > 0) by {
                assert(parents_of(next, x) == parents_of(prefix, x) + Seq::new(
                    occ(refs[i as int].child_ids@, x),
                    |_i: int| id,
                ));
            }
        }
        i = i + 1;
    }
    proof {
        assert(refs.take(i as int) =~= refs);
        assert forall|x: usize| #[trigger] id_to_reference@.contains_key(x) <==> (x == root_id
            || has_dependent(refs, x)) by {
            lemma_parents_nonempty(refs, x);
        }
    }
    Ok(id_to_reference)
}


/// The number of child entries over all references.
pub open spec fn total_children(refs: Seq<Reference>) -> nat
    decreases refs.len(),
{
    if refs.len() == 0 {
        0
    } else {
        total_children(refs.drop_last()) + refs.last().child_ids@.len()
    }
}

proof fn lemma_occ_le_len(s: Seq<usize>, x: usize)
    ensures
        occ(s, x) <= s.len(),
    decreases s.len(),
{
    if s.len() > 0 {
        lemma_occ_le_len(s.drop_last(), x);
    }
}

proof fn lemma_parents_len(refs: Seq<Reference>, c: usize)
    ensures
        parents_of(refs, c).len() <= total_children(refs),
    decreases refs.len(),
{
    if refs.len() > 0 {
        lemma_parents_len(refs.drop_last(), c);
        lemma_occ_le_len(refs.last().child_ids@, c);
    }
}

/// Every parent of `c` is the id of a reference that lists `c` as a child.
proof fn lemma_parents_member(refs: Seq<Reference>, c: usize, i: int)
    requires
        0 <= i < parents_of(refs, c).len(),
    ensures
        exists|k: int|
            0 <= k < refs.len() && (#[trigger] refs[k]).id == parents_of(refs, c)[i]
                && refs[k].child_ids@.contains(c),
    decreases refs.len(),
{
    let init = refs.drop_last();
    if i < parents_of(init, c).len() {
        lemma_parents_member(init, c, i);
        let k = choose|k: int|
            0 <= k < init.len() && (#[trigger] init[k]).id == parents_of(init, c)[i]
                && init[k].child_ids@.contains(c);
        assert(refs[k] == init[k]);
    } else {
        lemma_occ_contains(refs.last().child_ids@, c);
        assert(refs[refs.len() - 1] == refs.last());
    }
}

/// Every reference that lists `c` as a child is among the parents of `c`.
proof fn lemma_parents_contains(refs: Seq<Reference>, k: int, c: usize)
    requires
        0 <= k < refs.len(),
        refs[k].child_ids@.contains(c),
    ensures
        parents_of(refs, c).contains(refs[k].id),
    decreases refs.len(),
{
    let init = refs.drop_last();
    let len0 = parents_of(init, c).len();
    if k < refs.len() - 1 {
        assert(init[k] == refs[k]);
        lemma_parents_contains(init, k, c);
        let i = choose|i: int| 0 <= i < parents_of(init, c).len() && parents_of(init, c)[i] == refs[k].id;
        assert(parents_of(refs, c)[i] == refs[k].id);
    } else {
        lemma_occ_contains(refs.last().child_ids@, c);
        assert(parents_of(refs, c)[len0 as int] == refs[k].id);
    }
}

/// `b` raised to the power `e`.
pub open spec fn power(b: nat, e: nat) -> nat
    decreases e,
{
    if e == 0 {
        1
    } else {
        b * power(b, (e - 1) as nat)
    }
}

proof fn lemma_power_positive(b: nat, e: nat)
    requires
        b >= 1,
    ensures
        power(b, e) >= 1,
    decreases e,
{
    if e > 0 {
        lemma_power_positive(b, (e - 1) as nat);
        assert(b * power(b, (e - 1) as nat) >= 1) by (nonlinear_arith)
            requires
                b >= 1,
                power(b, (e - 1) as nat) >= 1,
        ;
    }
}

/// A weight of the pending (node, depth) pairs: deeper pairs weigh less.
pub open spec fn stack_weight(stack: Seq<(usize, usize)>, b: nat, limit: nat) -> nat
    decreases stack.len(),
{
    if stack.len() == 0 {
        0
    } else {
        stack_weight(stack.drop_last(), b, limit) + power(b, (limit - stack.last().1) as nat)
    }
}

proof fn lemma_stack_weight_push(stack: Seq<(usize, usize)>, e: (usize, usize), b: nat, limit: nat)
    ensures
        stack_weight(stack.push(e), b, limit) == stack_weight(stack, b, limit) + power(
            b,
            (limit - e.1) as nat,
        ),
{
    assert(stack.push(e).drop_last() =~= stack);
}

/// `x` is in layer `l`.
pub open spec fn in_layer(layers: Seq<Seq<usize>>, x: usize, l: int) -> bool {
    0 <= l < layers.len() && layers[l].contains(x)
}

/// `x` is in some layer.
pub open spec fn is_placed(layers: Seq<Seq<usize>>, x: usize) -> bool {
    exists|l: int| in_layer(layers, x, l)
}

/// The layers hold every reference id exactly once, nothing else, and each
/// layer in ascending order.
pub open spec fn is_partition(refs: Seq<Reference>, layers: Seq<Seq<usize>>) -> bool {
    &&& forall|l: int, a: int, b: int|
        0 <= l < layers.len() && 0 <= a < b < layers[l].len() ==> #[trigger] layers[l][a]
            < #[trigger] layers[l][b]
    &&& forall|l: int, a: int|
        0 <= l < layers.len() && 0 <= a < layers[l].len() ==> is_ref_id(refs, #[trigger] layers[l][a])
    &&& forall|k: int| 0 <= k < refs.len() ==> is_placed(layers, (#[trigger] refs[k]).id)
    &&& forall|x: usize, l1: int, l2: int|
        in_layer(layers, x, l1) && in_layer(layers, x, l2) ==> l1 == l2
}

/// Node `k` sits in layer `l` as the layering asks: a leaf in layer 0, any
/// other node one layer above the highest of its children.
pub open spec fn layer_rule(refs: Seq<Reference>, layers: Seq<Seq<usize>>, k: int, l: int) -> bool {
    if refs[k].child_ids@.len() == 0 {
        l == 0
    } else {
        &&& forall|j: int, lc: int|
            0 <= j < refs[k].child_ids@.len() && #[trigger] in_layer(layers, refs[k].child_ids@[j], lc)
                ==> lc < l
        &&& exists|j: int, lc: int|
            0 <= j < refs[k].child_ids@.len() && #[trigger] in_layer(layers, refs[k].child_ids@[j], lc)
                && lc + 1 == l
    }
}

/// A layered schedule: a partition of the nodes into non-empty layers,
/// each node one layer above the highest of its children.
pub open spec fn is_layering(refs: Seq<Reference>, layers: Seq<Seq<usize>>) -> bool {
    &&& is_partition(refs, layers)
    &&& forall|l: int| 0 <= l < layers.len() ==> (#[trigger] layers[l]).len() > 0
    &&& forall|k: int, l: int|
        0 <= k < refs.len() && #[trigger] in_layer(layers, refs[k].id, l) ==> layer_rule(
            refs,
            layers,
            k,
            l,
        )
}

/// The layers of a layered schedule as sequences.
pub open spec fn layers_view(layers: Seq<Vec<usize>>) -> Seq<Seq<usize>> {
    layers.map_values(|v: Vec<usize>| v@)
}


/// A single-rooted graph has one root id only.
proof fn lemma_two_roots(refs: Seq<Reference>, x: usize, y: usize)
    requires
        has_one_root(refs),
        is_root_id(refs, x),
        is_root_id(refs, y),
    ensures
        x == y,
{
    broadcast use vstd::seq_lib::group_filter_ensures;
    let pred = |r: Reference| is_root_reference(refs, r);
    let kx = choose|k: int| 0 <= k < refs.len() && (#[trigger] refs[k]).id == x;
    let ky = choose|k: int| 0 <= k < refs.len() && (#[trigger] refs[k]).id == y;
    let f = refs.filter(pred);
    assert(pred(refs[kx]));
    assert(pred(refs[ky]));
    assert(f.contains(refs[kx]));
    assert(f.contains(refs[ky]));
    let ix = choose|i: int| 0 <= i < f.len() && f[i] == refs[kx];
    let iy = choose|i: int| 0 <= i < f.len() && f[i] == refs[ky];
    assert(f.len() == 1);
}

/// The position of `x` in `order`.
pub open spec fn position(order: Seq<usize>, x: usize) -> int {
    choose|i: int| 0 <= i < order.len() && order[i] == x
}

/// A topological order lists every reference id.
proof fn lemma_order_covers(refs: Seq<Reference>, order: Seq<usize>)
    requires
        unique_ids(refs),
        is_topological_order(refs, order),
    ensures
        forall|k: int| 0 <= k < refs.len() ==> order.contains(#[trigger] refs[k].id),
{
    broadcast use vstd::seq_lib::seq_to_set_is_finite;
    let ids = ids_of(refs);
    assert(ids.no_duplicates()) by {
        assert forall|a: int, b: int| 0 <= a < ids.len() && 0 <= b < ids.len() && a != b implies ids[a] != ids[b] by {
            assert(refs[a].id != refs[b].id);
        }
    }
    ids.unique_seq_to_set();
    order.unique_seq_to_set();
    assert(order.to_set().subset_of(ids.to_set())) by {
        assert forall|x: usize| order.to_set().contains(x) implies ids.to_set().contains(x) by {
            let i = choose|i: int| 0 <= i < order.len() && order[i] == x;
            assert(is_ref_id(refs, order[i]));
            let k = choose|k: int| 0 <= k < refs.len() && (#[trigger] refs[k]).id == order[i];
            assert(ids[k] == x);
        }
    }
    vstd::set_lib::lemma_subset_equality(order.to_set(), ids.to_set());
    assert forall|k: int| 0 <= k < refs.len() implies order.contains(#[trigger] refs[k].id) by {
        assert(ids[k] == refs[k].id);
        assert(ids.to_set().contains(refs[k].id));
        assert(order.to_set().contains(refs[k].id));
    }
}

/// In a topological order a child comes before its parent.
proof fn lemma_child_position(refs: Seq<Reference>, order: Seq<usize>, k: int, j: int)
    requires
        unique_ids(refs),
        is_topological_order(refs, order),
        0 <= k < refs.len(),
        0 <= j < refs[k].child_ids@.len(),
    ensures
        0 <= position(order, refs[k].child_ids@[j]) < position(order, refs[k].id) < order.len(),
        order[position(order, refs[k].id)] == refs[k].id,
        order[position(order, refs[k].child_ids@[j])] == refs[k].child_ids@[j],
{
    lemma_order_covers(refs, order);
    assert(order.contains(refs[k].id));
    let p = position(order, refs[k].id);
    assert(children_precede(refs, order, p));
    let c = refs[k].child_ids@[j];
    assert(order.take(p).contains(c));
    let i = choose|i: int| 0 <= i < order.take(p).len() && order.take(p)[i] == c;
    assert(order[i] == c);
    assert(order.contains(c));
    let pc = position(order, c);
    assert(pc == i);
}

/// The pair `e` has been processed: its node is in the reversed graph, and
/// every parent has been pushed one level deeper.
pub open spec fn expanded(
    refs: Seq<Reference>,
    reversed: Map<usize, Reference>,
    seen: Set<(usize, usize)>,
    e: (usize, usize),
) -> bool {
    &&& reversed.contains_key(e.0)
    &&& forall|i: int|
        0 <= i < parents_of(refs, e.0).len() ==> seen.contains(
            (#[trigger] parents_of(refs, e.0)[i], (e.1 + 1) as usize),
        )
}

/// Some pair of `seen` holds node `x`.
pub open spec fn reached(seen: Set<(usize, usize)>, x: usize) -> bool {
    exists|d: usize| seen.contains((x, d))
}

/// Once all pairs are processed, every node of a graph with a topological
/// order has been reached from the leaves.
proof fn lemma_all_reached(
    refs: Seq<Reference>,
    order: Seq<usize>,
    reversed: Map<usize, Reference>,
    seen: Set<(usize, usize)>,
    limit: nat,
    m: int,
)
    requires
        unique_ids(refs),
        is_topological_order(refs, order),
        0 <= m <= order.len(),
        forall|e: (usize, usize)| #[trigger] seen.contains(e) ==> e.1 < limit && expanded(refs, reversed, seen, e),
        forall|k: int|
            0 <= k < refs.len() && (#[trigger] refs[k]).child_ids@.len() == 0 ==> seen.contains(
                (refs[k].id, 0usize),
            ),
        limit < usize::MAX,
    ensures
        forall|i: int| 0 <= i < m ==> reached(seen, #[trigger] order[i]),
    decreases m,
{
    if m > 0 {
        lemma_all_reached(refs, order, reversed, seen, limit, m - 1);
        let i = m - 1;
        let x = order[i];
        assert(is_ref_id(refs, x));
        let k = choose|k: int| 0 <= k < refs.len() && (#[trigger] refs[k]).id == x;
        if refs[k].child_ids@.len() == 0 {
            assert(seen.contains((order[i], 0usize)));
            assert(reached(seen, order[i]));
        } else {
            lemma_child_position(refs, order, k, 0);
            lemma_order_covers(refs, order);
            let c = refs[k].child_ids@[0];
            let pc = position(order, c);
            assert(position(order, x) == i) by {
                assert(order[i] == x);
            }
            assert(reached(seen, order[pc]));
            let d = choose|d: usize| seen.contains((order[pc], d));
            assert(seen.contains((c, d)));
            assert(refs[k].child_ids@.contains(c)) by {
                assert(refs[k].child_ids@[0] == c);
            }
            lemma_parents_contains(refs, k, c);
            let pi = choose|pi: int| 0 <= pi < parents_of(refs, c).len() && parents_of(refs, c)[pi] == x;
            assert(expanded(refs, reversed, seen, (c, d)));
            assert(seen.contains((parents_of(refs, c)[pi], (d + 1) as usize)));
            assert(seen.contains((order[i], (d + 1) as usize)));
            assert(reached(seen, order[i]));
        }
    }
}

/// A single-rooted graph has a root.
pub(crate) proof fn lemma_root_exists(refs: Seq<Reference>)
    requires
        has_one_root(refs),
    ensures
        exists|k: int| 0 <= k < refs.len() && is_root_id(refs, (#[trigger] refs[k]).id),
{
    broadcast use vstd::seq_lib::group_filter_ensures;

    let pred = |r: Reference| is_root_reference(refs, r);
    let r = refs.filter(pred)[0];
    assert(pred(r));
    assert(refs.filter(pred).contains(r));
    refs.lemma_filter_contains_rev(pred, r);
    let k = choose|k: int| 0 <= k < refs.len() && refs[k] == r;
    assert(is_root_id(refs, refs[k].id));
}

/// The depth rule at node `k`: a leaf has depth 0, any other node a depth
/// one above the deepest of its children.
spec fn depth_ok(refs: Seq<Reference>, depths: Seq<usize>, k: int) -> bool {
    let ch = refs[k].child_ids@;
    if ch.len() == 0 {
        depths[refs[k].id as int] == 0
    } else {
        &&& forall|j: int| 0 <= j < ch.len() ==> depths[#[trigger] ch[j] as int] < depths[refs[k].id as int]
        &&& exists|j: int| 0 <= j < ch.len() && depths[#[trigger] ch[j] as int] + 1 == depths[refs[k].id as int]
    }
}

/// In a graph with a topological order every child names a reference.
pub(crate) proof fn lemma_topological_children_known(refs: Seq<Reference>, order: Seq<usize>)
    requires
        unique_ids(refs),
        is_topological_order(refs, order),
    ensures
        children_known(refs),
{
    assert forall|k: int, j: int|
        0 <= k < refs.len() && 0 <= j < refs[k].child_ids@.len() implies is_ref_id(
        refs,
        #[trigger] refs[k].child_ids@[j],
    ) by {
        lemma_child_position(refs, order, k, j);
        assert(is_ref_id(refs, order[position(order, refs[k].child_ids@[j])]));
    }
}

/// When the walk from the leaves is complete, a node lies deeper than each
/// of its children.
proof fn lemma_child_below(
    refs: Seq<Reference>,
    order: Seq<usize>,
    reversed: Map<usize, Reference>,
    seen: Set<(usize, usize)>,
    depths: Seq<usize>,
    n: int,
    k: int,
    j: int,
)
    requires
        unique_ids(refs),
        is_topological_order(refs, order),
        0 <= k < refs.len(),
        depths.len() == n,
        forall|e: (usize, usize)| #[trigger] seen.contains(e) ==> expanded(refs, reversed, seen, e),
        forall|e: (usize, usize)|
            #[trigger] seen.contains(e) ==> e.0 < n && e.1 <= depths[e.0 as int] && is_ref_id(refs, e.0),
        forall|x: int| 0 <= x < n && depths[x] > 0 ==> seen.contains((x as usize, #[trigger] depths[x])),
        forall|i: int| 0 <= i < order.len() ==> reached(seen, #[trigger] order[i]),
        forall|x: usize| is_ref_id(refs, x) ==> x < n,
        forall|x: int| 0 <= x < n ==> #[trigger] depths[x] < usize::MAX,
        0 <= j < refs[k].child_ids@.len(),
    ensures
        depths[refs[k].child_ids@[j] as int] < depths[refs[k].id as int],
{
    let x = refs[k].id;
    let ch = refs[k].child_ids@;
    let c = ch[j];
    lemma_child_position(refs, order, k, j);
    let pc = position(order, c);
    assert(reached(seen, order[pc]));
    let dc0 = choose|dc0: usize| seen.contains((c, dc0));
    let dc = depths[c as int];
    if dc > 0 {
        assert(seen.contains((c as usize, depths[c as int])));
    } else {
        assert(dc0 <= dc);
        assert(seen.contains((c, dc)));
    }
    assert(ch.contains(c));
    lemma_parents_contains(refs, k, c);
    let pi = choose|pi: int| 0 <= pi < parents_of(refs, c).len() && parents_of(refs, c)[pi] == x;
    assert(expanded(refs, reversed, seen, (c, dc)));
    assert(seen.contains((parents_of(refs, c)[pi], (dc + 1) as usize)));
}

/// When the walk from the leaves is complete, the depths follow the rule.
proof fn lemma_depth_rule(
    refs: Seq<Reference>,
    order: Seq<usize>,
    reversed: Map<usize, Reference>,
    seen: Set<(usize, usize)>,
    depths: Seq<usize>,
    n: int,
    k: int,
)
    requires
        unique_ids(refs),
        is_topological_order(refs, order),
        0 <= k < refs.len(),
        depths.len() == n,
        forall|e: (usize, usize)| #[trigger] seen.contains(e) ==> expanded(refs, reversed, seen, e),
        forall|e: (usize, usize)|
            #[trigger] seen.contains(e) ==> e.0 < n && e.1 <= depths[e.0 as int] && is_ref_id(refs, e.0),
        forall|x: int| 0 <= x < n && depths[x] > 0 ==> seen.contains((x as usize, #[trigger] depths[x])),
        forall|e: (usize, usize)|
            #[trigger] seen.contains(e) && e.1 > 0 ==> exists|k2: int, jj: int|
                0 <= k2 < refs.len() && (#[trigger] refs[k2]).id == e.0 && 0 <= jj < refs[k2].child_ids@.len()
                    && seen.contains((#[trigger] refs[k2].child_ids@[jj], (e.1 - 1) as usize)),
        forall|e: (usize, usize)| #[trigger] seen.contains(e) && e.1 == 0 ==> leaf_among(refs, e.0, refs.len() as int),
        forall|i: int| 0 <= i < order.len() ==> reached(seen, #[trigger] order[i]),
        forall|x: usize| is_ref_id(refs, x) ==> x < n,
        forall|x: int| 0 <= x < n ==> #[trigger] depths[x] < usize::MAX,
    ensures
        depth_ok(refs, depths, k),
{
    lemma_order_covers(refs, order);
    let x = refs[k].id;
    let ch = refs[k].child_ids@;
    assert(order.contains(x));
    let ix = choose|ix: int| 0 <= ix < order.len() && order[ix] == x;
    assert(reached(seen, order[ix]));
    let d = choose|d: usize| seen.contains((x, d));
    if ch.len() == 0 {
        if depths[x as int] > 0 {
            assert(seen.contains((x, depths[x as int])));
            let (k2, jj) = choose|k2: int, jj: int|
                0 <= k2 < refs.len() && (#[trigger] refs[k2]).id == x && 0 <= jj < refs[k2].child_ids@.len()
                    && seen.contains((#[trigger] refs[k2].child_ids@[jj], (depths[x as int] - 1) as usize));
            assert(k2 == k);
        }
    } else {
        assert forall|j: int| 0 <= j < ch.len() implies depths[#[trigger] ch[j] as int] < depths[x as int] by {
            lemma_child_below(refs, order, reversed, seen, depths, n, k, j);
        }
        if d == 0 {
            assert(leaf_among(refs, x, refs.len() as int));
            let k2 = choose|k2: int| 0 <= k2 < refs.len() && (#[trigger] refs[k2]).id == x && refs[k2].child_ids@.len() == 0;
            assert(k2 == k);
        }
        assert(depths[x as int] > 0);
        assert(seen.contains((x, depths[x as int])));
        let (k2, jj) = choose|k2: int, jj: int|
            0 <= k2 < refs.len() && (#[trigger] refs[k2]).id == x && 0 <= jj < refs[k2].child_ids@.len()
                && seen.contains((#[trigger] refs[k2].child_ids@[jj], (depths[x as int] - 1) as usize));
        assert(k2 == k);
        assert(depths[ch[jj] as int] < depths[x as int]);
        assert(depths[ch[jj] as int] + 1 == depths[x as int]);
    }
}

/// Depths that follow the rule leave no gap: below any node's depth, every
/// depth is held by some node.
proof fn lemma_depth_chain(refs: Seq<Reference>, depths: Seq<usize>, k: int, l: int)
    requires
        0 <= k < refs.len(),
        0 <= l <= depths[refs[k].id as int],
        children_known(refs),
        forall|k2: int| 0 <= k2 < refs.len() ==> #[trigger] depth_ok(refs, depths, k2),
    ensures
        exists|k2: int| 0 <= k2 < refs.len() && depths[(#[trigger] refs[k2]).id as int] == l,
    decreases depths[refs[k].id as int] - l,
{
    if depths[refs[k].id as int] > l {
        assert(depth_ok(refs, depths, k));
        let ch = refs[k].child_ids@;
        let j = choose|j: int| 0 <= j < ch.len() && depths[#[trigger] ch[j] as int] + 1 == depths[refs[k].id as int];
        assert(is_ref_id(refs, ch[j]));
        let k2 = choose|k2: int| 0 <= k2 < refs.len() && (#[trigger] refs[k2]).id == ch[j];
        lemma_depth_chain(refs, depths, k2, l);
    }
}

/// Depths that follow the rule, laid out one layer per depth, make a
/// layering.
proof fn lemma_layering(
    refs: Seq<Reference>,
    layers: Seq<Seq<usize>>,
    depths: Seq<usize>,
    n: int,
    max_depth: int,
)
    requires
        children_known(refs),
        refs.len() > 0,
        forall|k: int| 0 <= k < refs.len() ==> #[trigger] depth_ok(refs, depths, k),
        depths.len() == n,
        forall|x: usize| is_ref_id(refs, x) ==> x < n,
        forall|y: usize, l: int|
            #[trigger] in_layer(layers, y, l) <==> (is_ref_id(refs, y) && y < n && depths[y as int] == l),
        layers.len() == max_depth + 1,
        max_depth == 0 || exists|y: usize| is_ref_id(refs, y) && #[trigger] depths[y as int] == max_depth,
        is_partition(refs, layers),
    ensures
        is_layering(refs, layers),
{
    assert forall|l: int| 0 <= l < layers.len() implies (#[trigger] layers[l]).len() > 0 by {
        if max_depth > 0 {
            let y = choose|y: usize| is_ref_id(refs, y) && #[trigger] depths[y as int] == max_depth;
            let k0 = choose|k: int| 0 <= k < refs.len() && (#[trigger] refs[k]).id == y;
            assert(depths[refs[k0].id as int] == max_depth);
            lemma_depth_chain(refs, depths, k0, l);
        } else {
            lemma_depth_chain(refs, depths, 0, l);
        }
        let k2 = choose|k2: int| 0 <= k2 < refs.len() && depths[(#[trigger] refs[k2]).id as int] == l;
        assert(in_layer(layers, refs[k2].id, l));
    }
    assert forall|k: int, l: int|
        0 <= k < refs.len() && #[trigger] in_layer(layers, refs[k].id, l) implies layer_rule(refs, layers, k, l) by {
        assert(depth_ok(refs, depths, k));
        let ch = refs[k].child_ids@;
        if ch.len() > 0 {
            assert forall|j: int, lc: int|
                0 <= j < ch.len() && #[trigger] in_layer(layers, refs[k].child_ids@[j], lc) implies lc < l by {
                assert(depths[ch[j] as int] < depths[refs[k].id as int]);
            }
            let j = choose|j: int| 0 <= j < ch.len() && depths[#[trigger] ch[j] as int] + 1 == depths[refs[k].id as int];
            assert(is_ref_id(refs, ch[j]));
            assert(in_layer(layers, refs[k].child_ids@[j], depths[ch[j] as int] as int));
        }
    }
}

/// Once the walk from the leaves has processed every pair, the depths follow
/// the rule, every child names a node, and the walk met the given root.
proof fn lemma_walk_complete(
    refs: Seq<Reference>,
    order: Seq<usize>,
    reversed: Map<usize, Reference>,
    seen: Set<(usize, usize)>,
    stack: Seq<(usize, usize)>,
    depths: Seq<usize>,
    max_id: usize,
    root_id: usize,
)
    requires
        unique_ids(refs),
        is_topological_order(refs, order),
        is_single_rooted(refs),
        ids_within(refs, max_id),
        max_id < usize::MAX,
        refs.len() < usize::MAX,
        stack.len() == 0,
        depths.len() == max_id + 1,
        forall|x: int| 0 <= x <= max_id ==> #[trigger] depths[x] <= refs.len(),
        forall|x: usize| #[trigger] reversed.contains_key(x) <==> (x == root_id || has_dependent(refs, x)),
        forall|e: (usize, usize)|
            #[trigger] seen.contains(e) ==> stack.contains(e) || expanded(refs, reversed, seen, e),
        forall|e: (usize, usize)|
            #[trigger] seen.contains(e) ==> e.0 <= max_id && e.1 <= depths[e.0 as int] && e.1 <= position(
                order,
                e.0,
            ) && is_ref_id(refs, e.0),
        forall|x: int| 0 <= x <= max_id && depths[x] > 0 ==> seen.contains((x as usize, #[trigger] depths[x])),
        forall|e: (usize, usize)|
            #[trigger] seen.contains(e) && e.1 > 0 ==> exists|k: int, j: int|
                0 <= k < refs.len() && (#[trigger] refs[k]).id == e.0 && 0 <= j < refs[k].child_ids@.len()
                    && seen.contains((#[trigger] refs[k].child_ids@[j], (e.1 - 1) as usize)),
        forall|e: (usize, usize)| #[trigger] seen.contains(e) && e.1 == 0 ==> leaf_among(refs, e.0, refs.len() as int),
        forall|k: int|
            0 <= k < refs.len() && (#[trigger] refs[k]).child_ids@.len() == 0 ==> seen.contains((refs[k].id, 0usize)),
    ensures
        forall|k: int| 0 <= k < refs.len() ==> #[trigger] depth_ok(refs, depths, k),
        children_known(refs),
        is_root_id(refs, root_id),
        refs.len() > 0,
        forall|x: usize| is_ref_id(refs, x) ==> x <= max_id,
{
    let n = max_id + 1;
    let limit = refs.len();
    assert forall|e: (usize, usize)| #[trigger] seen.contains(e) implies e.1 < limit && expanded(
        refs,
        reversed,
        seen,
        e,
    ) by {
        lemma_order_covers(refs, order);
        let k = choose|k: int| 0 <= k < refs.len() && (#[trigger] refs[k]).id == e.0;
        assert(order.contains(refs[k].id));
    }
    lemma_all_reached(refs, order, reversed, seen, limit, order.len() as int);
    assert forall|x: usize| is_ref_id(refs, x) implies x < n by {
        let k = choose|k: int| 0 <= k < refs.len() && (#[trigger] refs[k]).id == x;
        assert(refs[k].id <= max_id);
    }
    assert forall|k: int| 0 <= k < refs.len() implies #[trigger] depth_ok(refs, depths, k) by {
        lemma_depth_rule(refs, order, reversed, seen, depths, n, k);
    }
    lemma_topological_children_known(refs, order);
    lemma_root_exists(refs);
    let kr = choose|k: int| 0 <= k < refs.len() && is_root_id(refs, (#[trigger] refs[k]).id);
    lemma_order_covers(refs, order);
    assert(order.contains(refs[kr].id));
    let ir = choose|ir: int| 0 <= ir < order.len() && order[ir] == refs[kr].id;
    assert(reached(seen, order[ir]));
    let dr = choose|dr: usize| seen.contains((refs[kr].id, dr));
    assert(expanded(refs, reversed, seen, (refs[kr].id, dr)));
    assert(refs[kr].id == root_id);
    lemma_single_rooted_nonempty(refs);
}

/// The schedule built from the depths partitions the nodes, one layer per
/// depth.
proof fn lemma_schedule_layers(
    refs: Seq<Reference>,
    schedule: Seq<Vec<usize>>,
    is_node: Seq<bool>,
    depths: Seq<usize>,
    max_id: usize,
)
    requires
        ids_within(refs, max_id),
        max_id < usize::MAX,
        is_node.len() == max_id + 1,
        depths.len() == max_id + 1,
        forall|y: int| 0 <= y <= max_id ==> (#[trigger] is_node[y] <==> is_ref_id(refs, y as usize)),
        forall|l: int, a: int|
            0 <= l < schedule.len() && 0 <= a < schedule[l]@.len() ==> #[trigger] schedule[l]@[a] <= max_id
                && is_node[schedule[l]@[a] as int] && depths[schedule[l]@[a] as int] == l,
        forall|l: int, a: int, c: int|
            0 <= l < schedule.len() && 0 <= a < c < schedule[l]@.len() ==> #[trigger] schedule[l]@[a]
                < #[trigger] schedule[l]@[c],
        forall|y: int|
            0 <= y <= max_id && #[trigger] is_node[y] ==> depths[y] < schedule.len()
                && schedule[depths[y] as int]@.contains(y as usize),
    ensures
        is_partition(refs, layers_view(schedule)),
        forall|y: usize, l: int|
            #[trigger] in_layer(layers_view(schedule), y, l) <==> (is_ref_id(refs, y) && y <= max_id
                && depths[y as int] == l),
{
    let layers = layers_view(schedule);
    assert forall|l: int| 0 <= l < layers.len() implies #[trigger] layers[l] == schedule[l]@ by {}
    assert forall|x: usize, l: int| #[trigger] in_layer(layers, x, l) implies x <= max_id && is_node[x as int]
        && depths[x as int] == l by {
        assert(layers[l] == schedule[l]@);
        let a = choose|a: int| 0 <= a < layers[l].len() && layers[l][a] == x;
        assert(schedule[l]@[a] == x);
    }
    assert forall|k: int| 0 <= k < refs.len() implies is_placed(layers, (#[trigger] refs[k]).id) by {
        let y = refs[k].id;
        assert(y <= max_id);
        assert(is_node[y as int]);
        assert(layers[depths[y as int] as int] == schedule[depths[y as int] as int]@);
        assert(in_layer(layers, y, depths[y as int] as int));
    }
    assert forall|l: int, a: int|
        0 <= l < layers.len() && 0 <= a < layers[l].len() implies is_ref_id(refs, #[trigger] layers[l][a]) by {
        assert(layers[l] == schedule[l]@);
        assert(in_layer(layers, layers[l][a], l));
    }
    assert forall|l: int, a: int, c: int|
        0 <= l < layers.len() && 0 <= a < c < layers[l].len() implies #[trigger] layers[l][a]
            < #[trigger] layers[l][c] by {
        assert(layers[l] == schedule[l]@);
    }
    assert forall|x: usize, l1: int, l2: int|
        in_layer(layers, x, l1) && in_layer(layers, x, l2) implies l1 == l2 by {
        assert(in_layer(layers, x, l1));
        assert(in_layer(layers, x, l2));
    }
    assert(is_partition(refs, layers));
    assert forall|y: usize, l: int|
        #[trigger] in_layer(layers, y, l) <==> (is_ref_id(refs, y) && y <= max_id && depths[y as int] == l) by {
        if is_ref_id(refs, y) && y <= max_id && depths[y as int] == l {
            assert(is_node[y as int]);
            let a = choose|a: int| 0 <= a < schedule[l]@.len() && schedule[l]@[a] == y;
            assert(layers[l] == schedule[l]@);
        }
    }
}

/// In a layering of a single-rooted graph every node other than the root
/// lies in a layer below the root's.
proof fn lemma_below_root(refs: Seq<Reference>, layers: Seq<Seq<usize>>, root: usize, x: usize, lx: int)
    requires
        is_single_rooted(refs),
        is_root_id(refs, root),
        is_layering(refs, layers),
        is_ref_id(refs, x),
        x != root,
        in_layer(layers, x, lx),
    ensures
        forall|lr: int| #[trigger] in_layer(layers, root, lr) ==> lx < lr,
    decreases layers.len() - lx,
{
    if !has_dependent(refs, x) {
        lemma_two_roots(refs, x, root);
    }
    let kp = choose|k: int| 0 <= k < refs.len() && (#[trigger] refs[k]).child_ids@.contains(x);
    let p = refs[kp].id;
    assert(is_placed(layers, p));
    let lp = choose|l: int| in_layer(layers, p, l);
    assert(layer_rule(refs, layers, kp, lp));
    let j = choose|j: int| 0 <= j < refs[kp].child_ids@.len() && refs[kp].child_ids@[j] == x;
    assert(in_layer(layers, refs[kp].child_ids@[j], lx));
    assert(lx < lp);
    if p == root {
        assert forall|lr: int| #[trigger] in_layer(layers, root, lr) implies lx < lr by {
            assert(in_layer(layers, p, lp));
        }
    } else {
        assert(is_ref_id(refs, p));
        lemma_below_root(refs, layers, root, p, lp);
    }
}

/// In a layering of a single-rooted graph the root is alone in the last
/// layer: it is polled after every other node, so its output is complete
/// once all layers are done.
pub proof fn lemma_root_alone_in_last_layer(refs: Seq<Reference>, layers: Seq<Seq<usize>>, root: usize)
    requires
        is_single_rooted(refs),
        is_root_id(refs, root),
        is_layering(refs, layers),
    ensures
        layers.len() > 0,
        layers.last() == seq![root],
{
    let kr = choose|k: int| 0 <= k < refs.len() && (#[trigger] refs[k]).id == root;
    assert(is_placed(layers, refs[kr].id));
    let lr = choose|l: int| in_layer(layers, root, l);
    let last = layers.last();
    let top = layers.len() - 1;
    assert(last.len() > 0);
    assert forall|a: int| 0 <= a < last.len() implies #[trigger] last[a] == root by {
        let y = last[a];
        assert(layers[top][a] == y);
        assert(is_ref_id(refs, y));
        assert(in_layer(layers, y, top));
        if y != root {
            lemma_below_root(refs, layers, root, y, top);
            assert(top < lr);
        }
    }
    if last.len() > 1 {
        assert(layers[top][0] < layers[top][1]);
    }
    assert(last =~= seq![root]);
}

/// `x` feeds `root` through `n` steps: following dependents from `x`, `n`
/// steps lead to `root`.
pub open spec fn feeds(refs: Seq<Reference>, x: usize, root: usize, n: nat) -> bool
    decreases n,
{
    if n == 0 {
        x == root
    } else {
        exists|k: int|
            0 <= k < refs.len() && (#[trigger] refs[k]).child_ids@.contains(x) && feeds(
                refs,
                refs[k].id,
                root,
                (n - 1) as nat,
            )
    }
}

/// In a single-rooted graph that can be scheduled, every node is connected
/// to the root: a chain of dependents leads from it to the root, whose
/// output is the graph's output.
pub proof fn lemma_connected_to_root(refs: Seq<Reference>, root: usize, x: usize)
    requires
        unique_ids(refs),
        has_topological_order(refs),
        is_single_rooted(refs),
        is_root_id(refs, root),
        is_ref_id(refs, x),
    ensures
        exists|n: nat| feeds(refs, x, root, n),
{
    let order = choose|order: Seq<usize>| is_topological_order(refs, order);
    lemma_feeds_root(refs, order, root, x);
}

proof fn lemma_feeds_root(refs: Seq<Reference>, order: Seq<usize>, root: usize, x: usize)
    requires
        unique_ids(refs),
        is_topological_order(refs, order),
        is_single_rooted(refs),
        is_root_id(refs, root),
        is_ref_id(refs, x),
    ensures
        exists|n: nat| feeds(refs, x, root, n),
    decreases order.len() - position(order, x),
{
    if x == root {
        assert(feeds(refs, x, root, 0));
    } else {
        if !has_dependent(refs, x) {
            lemma_two_roots(refs, x, root);
        }
        let kp = choose|k: int| 0 <= k < refs.len() && (#[trigger] refs[k]).child_ids@.contains(x);
        let p = refs[kp].id;
        let j = choose|j: int| 0 <= j < refs[kp].child_ids@.len() && refs[kp].child_ids@[j] == x;
        lemma_child_position(refs, order, kp, j);
        assert(is_ref_id(refs, p));
        lemma_feeds_root(refs, order, root, p);
        let n = choose|n: nat| feeds(refs, p, root, n);
        assert(feeds(refs, x, root, n + 1));
    }
}

/// `x` lies `d` steps up from a leaf: `x` is a leaf for `d == 0`, and
/// otherwise some reference with id `x` has a child that lies `d - 1` steps
/// up from a leaf. A node lying more steps up than there are references has
/// been reached round a cycle.
pub open spec fn climbs(refs: Seq<Reference>, x: usize, d: nat) -> bool
    decreases d,
{
    if d == 0 {
        exists|k: int| 0 <= k < refs.len() && (#[trigger] refs[k]).id == x && refs[k].child_ids@.len() == 0
    } else {
        exists|k: int, c: usize|
            #[trigger] lists_child(refs, k, c) && refs[k].id == x && climbs(refs, c, (d - 1) as nat)
    }
}

/// `l` is the number of steps of the longest walk up from a leaf to `x`, or
/// 0 where no walk of one step or more reaches `x`.
pub open spec fn longest_climb(refs: Seq<Reference>, x: usize, l: int) -> bool {
    &&& l >= 0
    &&& (l == 0 || climbs(refs, x, l as nat))
    &&& forall|d: nat| #[trigger] climbs(refs, x, d) ==> d <= l
}

/// Reference `k` lists `c` among its children.
pub open spec fn lists_child(refs: Seq<Reference>, k: int, c: usize) -> bool {
    0 <= k < refs.len() && refs[k].child_ids@.contains(c)
}

proof fn lemma_climb_step(refs: Seq<Reference>, k: int, c: usize, d: nat)
    requires
        0 <= k < refs.len(),
        refs[k].child_ids@.contains(c),
        climbs(refs, c, d),
    ensures
        climbs(refs, refs[k].id, d + 1),
{
    assert(lists_child(refs, k, c));
    assert(((d + 1) - 1) as nat == d);
}

/// Once every pair met on a walk up from the leaves has been expanded short
/// of `limit`, and every leaf was met at step 0, every walk up from a leaf
/// has been met: none is `limit` steps long or longer.
proof fn lemma_climbs_met(
    refs: Seq<Reference>,
    reversed: Map<usize, Reference>,
    met: Set<(usize, usize)>,
    limit: nat,
    x: usize,
    d: nat,
)
    requires
        forall|e: (usize, usize)| #[trigger] met.contains(e) ==> e.1 < limit && expanded(refs, reversed, met, e),
        forall|k: int|
            0 <= k < refs.len() && (#[trigger] refs[k]).child_ids@.len() == 0 ==> met.contains((refs[k].id, 0usize)),
        limit < usize::MAX,
        climbs(refs, x, d),
    ensures
        d < limit,
        met.contains((x, d as usize)),
    decreases d,
{
    if d == 0 {
        let k = choose|k: int| 0 <= k < refs.len() && (#[trigger] refs[k]).id == x && refs[k].child_ids@.len() == 0;
        assert(met.contains((refs[k].id, 0usize)));
    } else {
        let (k, c) = choose|k: int, c: usize|
            #[trigger] lists_child(refs, k, c) && refs[k].id == x && climbs(refs, c, (d - 1) as nat);
        lemma_climbs_met(refs, reversed, met, limit, c, (d - 1) as nat);
        assert(expanded(refs, reversed, met, (c, (d - 1) as usize)));
        lemma_parents_contains(refs, k, c);
        let i = choose|i: int| 0 <= i < parents_of(refs, c).len() && parents_of(refs, c)[i] == refs[k].id;
        assert(met.contains((parents_of(refs, c)[i], ((d - 1) as usize + 1) as usize)));
    }
}

/// Meeting the `j`-th parent of `cur` one step further up keeps the walk's
/// record of met pairs: the stack's pairs are met, a met pair is on the
/// stack, is `cur` or has been expanded, and the leaves stay met.
proof fn lemma_met_insert(
    refs: Seq<Reference>,
    reversed: Map<usize, Reference>,
    met_before: Set<(usize, usize)>,
    before: Seq<(usize, usize)>,
    stack: Seq<(usize, usize)>,
    cur: (usize, usize),
    parents: Seq<usize>,
    j: int,
    limit: nat,
    depths_before: Seq<usize>,
    depths: Seq<usize>,
    n: nat,
)
    requires
        0 <= j < parents.len(),
        cur.1 < limit,
        limit < usize::MAX,
        stack == before.push((parents[j], (cur.1 + 1) as usize)),
        parents[j] < n,
        depths_before.len() == n,
        climbs(refs, parents[j], (cur.1 + 1) as nat),
        depths == if depths_before[parents[j] as int] < cur.1 + 1 {
            depths_before.update(parents[j] as int, (cur.1 + 1) as usize)
        } else {
            depths_before
        },
        forall|e: (usize, usize)|
            #[trigger] met_before.contains(e) ==> e.0 < n && climbs(refs, e.0, e.1 as nat) && e.1
                <= depths_before[e.0 as int],
        forall|x: int| 0 <= x < n && depths_before[x] > 0 ==> met_before.contains((x as usize, #[trigger] depths_before[x])),
        met_before.contains(cur),
        forall|a: int| 0 <= a < before.len() ==> met_before.contains(#[trigger] before[a]),
        forall|e: (usize, usize)|
            #[trigger] met_before.contains(e) ==> before.contains(e) || e == cur || (e.1 < limit && expanded(
                refs,
                reversed,
                met_before,
                e,
            )),
        forall|i: int| 0 <= i < j ==> met_before.contains((#[trigger] parents[i], (cur.1 + 1) as usize)),
        forall|k: int|
            0 <= k < refs.len() && (#[trigger] refs[k]).child_ids@.len() == 0 ==> met_before.contains(
                (refs[k].id, 0usize),
            ),
    ensures
        ({
            let met = met_before.insert((parents[j], (cur.1 + 1) as usize));
            &&& met.contains(cur)
            &&& forall|a: int| 0 <= a < stack.len() ==> met.contains(#[trigger] stack[a])
            &&& forall|e: (usize, usize)|
                #[trigger] met.contains(e) ==> stack.contains(e) || e == cur || (e.1 < limit && expanded(
                    refs,
                    reversed,
                    met,
                    e,
                ))
            &&& forall|i: int| 0 <= i < j + 1 ==> met.contains((#[trigger] parents[i], (cur.1 + 1) as usize))
            &&& forall|k: int|
                0 <= k < refs.len() && (#[trigger] refs[k]).child_ids@.len() == 0 ==> met.contains(
                    (refs[k].id, 0usize),
                )
            &&& forall|e: (usize, usize)|
                #[trigger] met.contains(e) ==> e.0 < n && climbs(refs, e.0, e.1 as nat) && e.1 <= depths[e.0 as int]
            &&& forall|x: int| 0 <= x < n && depths[x] > 0 ==> met.contains((x as usize, #[trigger] depths[x]))
        }),
{
    let new_e = (parents[j], (cur.1 + 1) as usize);
    let met = met_before.insert(new_e);
    assert forall|e: (usize, usize)| #[trigger] met.contains(e) implies e.0 < n && climbs(refs, e.0, e.1 as nat)
        && e.1 <= depths[e.0 as int] by {
        if e != new_e {
            assert(met_before.contains(e));
        }
    }
    assert forall|x: int| 0 <= x < n && depths[x] > 0 implies met.contains((x as usize, #[trigger] depths[x])) by {
        if x != parents[j] || depths_before[x] >= cur.1 + 1 {
            assert(depths[x] == depths_before[x]);
            assert(met_before.contains((x as usize, depths_before[x])));
        }
    }
    assert forall|a: int| 0 <= a < stack.len() implies met.contains(#[trigger] stack[a]) by {
        if a < before.len() {
            assert(stack[a] == before[a]);
            assert(met_before.contains(before[a]));
        }
    }
    assert forall|e: (usize, usize)| #[trigger] met.contains(e) implies stack.contains(e) || e == cur || (e.1
        < limit && expanded(refs, reversed, met, e)) by {
        if e != new_e {
            assert(met_before.contains(e));
            if before.contains(e) {
                let a = choose|a: int| 0 <= a < before.len() && before[a] == e;
                assert(stack[a] == e);
            } else if e != cur {
                assert(expanded(refs, reversed, met_before, e));
                assert forall|i: int| 0 <= i < parents_of(refs, e.0).len() implies met.contains(
                    (#[trigger] parents_of(refs, e.0)[i], (e.1 + 1) as usize),
                ) by {
                    assert(met_before.contains((parents_of(refs, e.0)[i], (e.1 + 1) as usize)));
                }
            }
        } else {
            assert(stack[stack.len() - 1] == e);
        }
    }
    assert forall|i: int| 0 <= i < j + 1 implies met.contains((#[trigger] parents[i], (cur.1 + 1) as usize)) by {
        if i < j {
            assert(met_before.contains((parents[i], (cur.1 + 1) as usize)));
        }
    }
    assert forall|k: int|
        0 <= k < refs.len() && (#[trigger] refs[k]).child_ids@.len() == 0 implies met.contains(
        (refs[k].id, 0usize),
    ) by {
        assert(met_before.contains((refs[k].id, 0usize)));
    }
}

/// Walks the graph from its leaves along the reversed edges and gives each
/// node id its depth: 0 for a leaf, and otherwise one above the deepest of
/// its children.
#[verifier::spinoff_prover]
#[verifier::rlimit(100)]
fn walk_depths(
    references: &Vec<Reference>,
    max_id: usize,
    root_id: usize,
    reversed: &HashMap<usize, Reference>,
) -> (result: Result<Vec<usize>, ScheduleError>)
    requires
        ids_within(references@, max_id),
        max_id < usize::MAX,
        references@.len() < usize::MAX,
        is_single_rooted(references@),
        forall|x: usize|
            #[trigger] reversed@.contains_key(x) <==> (x == root_id || has_dependent(references@, x)),
        forall|x: usize|
            #[trigger] reversed@.contains_key(x) ==> reversed@[x].id == x
                && reversed@[x].child_ids@ == parents_of(references@, x),
    ensures
        match result {
            Ok(depths) => {
                &&& depths@.len() == max_id + 1
                &&& forall|x: int| 0 <= x <= max_id ==> #[trigger] depths@[x] <= references@.len()
                &&& forall|x: int| 0 <= x <= max_id && depths@[x] > 0 ==> is_ref_id(references@, x as usize)
                &&& forall|x: usize, d: nat| #[trigger] climbs(references@, x, d) ==> d < references@.len()
                &&& forall|x: int| 0 <= x <= max_id ==> longest_climb(references@, x as usize, #[trigger] depths@[x] as int)
                &&& unique_ids(references@) && has_topological_order(references@) ==> {
                    &&& forall|k: int| 0 <= k < references@.len() ==> #[trigger] depth_ok(references@, depths@, k)
                    &&& children_known(references@)
                    &&& is_root_id(references@, root_id)
                    &&& references@.len() > 0
                    &&& forall|x: usize| is_ref_id(references@, x) ==> x <= max_id
                }
            },
            Err(ScheduleError::MissingReference { id }) => {
                &&& is_root_id(references@, id)
                &&& !is_root_id(references@, root_id)
            },
            Err(ScheduleError::Cycle) => {
                &&& !(unique_ids(references@) && has_topological_order(references@))
                &&& exists|x: usize, d: nat| d >= references@.len() && #[trigger] climbs(references@, x, d)
            },
            Err(_) => false,
        },
{
    let ghost refs = references@;
    let n = max_id + 1;
    // Start with leaf nodes since all depths can be derived
    // (id, depth) pairs
    let mut stack: Vec<(usize, usize)> = Vec::new();
    let mut i: usize = 0;
    while i < references.len()
        invariant
            refs == references@,
            ids_within(refs, max_id),
            n == max_id + 1,
            i <= refs.len(),
            forall|a: int| 0 <= a < stack.len() ==> (#[trigger] stack@[a]).0 < n && stack@[a].1 == 0
                && is_ref_id(refs, stack@[a].0) && leaf_among(refs, stack@[a].0, refs.len() as int),
            forall|k: int| 0 <= k < i && (#[trigger] refs[k]).child_ids@.len() == 0 ==> stack@.contains((refs[k].id, 0usize)),
        decreases refs.len() - i,
    {
        let ghost before = stack@;
        if references[i].child_ids.len() == 0 {
            stack.push((references[i].id, 0));
        }
        proof {
            assert(refs[i as int].id <= max_id);
            assert forall|a: int| 0 <= a < stack.len() implies (#[trigger] stack@[a]).0 < n && stack@[a].1 == 0
                && is_ref_id(refs, stack@[a].0) && leaf_among(refs, stack@[a].0, refs.len() as int) by {
                if a < before.len() {
                    assert(stack@[a] == before[a]);
                } else {
                    assert(refs[i as int].id == stack@[a].0);
                }
            }
            assert forall|k: int| 0 <= k < i + 1 && (#[trigger] refs[k]).child_ids@.len() == 0 implies stack@.contains(
                (refs[k].id, 0usize),
            ) by {
                if k < i {
                    let a = choose|a: int| 0 <= a < before.len() && before[a] == (refs[k].id, 0usize);
                    assert(stack@[a] == (refs[k].id, 0usize));
                } else {
                    assert(stack@[stack@.len() - 1] == (refs[k].id, 0usize));
                }
            }
        }
        i = i + 1;
    }
    let mut id_to_depth: Vec<usize> = filled(0, n);
    let limit = references.len();
    let ghost b = total_children(refs) + 1;
    let ghost dag = unique_ids(refs) && has_topological_order(refs);
    let ghost order = choose|order: Seq<usize>| is_topological_order(refs, order);
    let ghost mut seen: Set<(usize, usize)> = stack@.to_set();
    let ghost mut met: Set<(usize, usize)> = stack@.to_set();
    proof {
        assert forall|a: int| 0 <= a < stack.len() implies met.contains(#[trigger] stack@[a]) by {}
        assert forall|e: (usize, usize)| #[trigger] met.contains(e) implies stack@.contains(e) || (e.1 < limit
            && expanded(refs, reversed@, met, e)) by {}
        assert forall|e: (usize, usize)| #[trigger] met.contains(e) implies e.0 < n && climbs(refs, e.0, e.1 as nat)
            && e.1 <= id_to_depth@[e.0 as int] by {
            let a = choose|a: int| 0 <= a < stack.len() && stack@[a] == e;
            assert(leaf_among(refs, stack@[a].0, refs.len() as int));
        }
        assert forall|k: int|
            0 <= k < refs.len() && (#[trigger] refs[k]).child_ids@.len() == 0 implies met.contains(
            (refs[k].id, 0usize),
        ) by {
            assert(stack@.contains((refs[k].id, 0usize)));
        }
    }
    proof {
        if dag {
            assert forall|e: (usize, usize)| #[trigger] seen.contains(e) implies stack@.contains(e) by {}
            assert forall|e: (usize, usize)| #[trigger] seen.contains(e) implies e.0 < n && e.1
                <= id_to_depth@[e.0 as int] && e.1 <= position(order, e.0) && is_ref_id(refs, e.0)
                && e.1 == 0 && leaf_among(refs, e.0, refs.len() as int) by {
                let a = choose|a: int| 0 <= a < stack.len() && stack@[a] == e;
                assert(stack@[a].1 == 0);
                lemma_order_covers(refs, order);
                let k = choose|k: int| 0 <= k < refs.len() && (#[trigger] refs[k]).id == e.0;
                assert(order.contains(refs[k].id));
            }
            assert forall|k: int|
                0 <= k < refs.len() && (#[trigger] refs[k]).child_ids@.len() == 0 implies seen.contains(
                (refs[k].id, 0usize),
            ) by {
                assert(stack@.contains((refs[k].id, 0usize)));
            }
        }
    }
    while stack.len() > 0
        invariant
            refs == references@,
            ids_within(refs, max_id),
            n == max_id + 1,
            limit == refs.len(),
            b == total_children(refs) + 1,
            is_single_rooted(refs),
            limit < usize::MAX,
            id_to_depth.len() == n,
            forall|x: usize|
                #[trigger] reversed@.contains_key(x) <==> (x == root_id || has_dependent(refs, x)),
            forall|x: usize|
                #[trigger] reversed@.contains_key(x) ==> reversed@[x].id == x
                    && reversed@[x].child_ids@ == parents_of(refs, x),
            forall|x: int| 0 <= x < n ==> #[trigger] id_to_depth@[x] <= limit,
            forall|a: int| 0 <= a < stack.len() ==> (#[trigger] stack@[a]).0 < n && stack@[a].1 <= limit
                && is_ref_id(refs, stack@[a].0),
            forall|a: int| 0 <= a < stack.len() ==> climbs(refs, (#[trigger] stack@[a]).0, stack@[a].1 as nat),
            forall|x: int| 0 <= x < n && id_to_depth@[x] > 0 ==> is_ref_id(refs, x as usize),
            forall|a: int| 0 <= a < stack.len() ==> met.contains(#[trigger] stack@[a]),
            forall|e: (usize, usize)|
                #[trigger] met.contains(e) ==> stack@.contains(e) || (e.1 < limit && expanded(refs, reversed@, met, e)),
            forall|k: int|
                0 <= k < refs.len() && (#[trigger] refs[k]).child_ids@.len() == 0 ==> met.contains((refs[k].id, 0usize)),
            forall|e: (usize, usize)|
                #[trigger] met.contains(e) ==> e.0 < n && climbs(refs, e.0, e.1 as nat) && e.1 <= id_to_depth@[e.0 as int],
            forall|x: int| 0 <= x < n && id_to_depth@[x] > 0 ==> met.contains((x as usize, #[trigger] id_to_depth@[x])),
            dag == (unique_ids(refs) && has_topological_order(refs)),
            dag ==> is_topological_order(refs, order),
            dag ==> forall|a: int| 0 <= a < stack.len() ==> seen.contains(#[trigger] stack@[a]),
            dag ==> forall|e: (usize, usize)|
                #[trigger] seen.contains(e) ==> stack@.contains(e) || expanded(refs, reversed@, seen, e),
            dag ==> forall|e: (usize, usize)|
                #[trigger] seen.contains(e) ==> e.0 < n && e.1 <= id_to_depth@[e.0 as int] && e.1 <= position(
                    order,
                    e.0,
                ) && is_ref_id(refs, e.0),
            dag ==> forall|x: int|
                0 <= x < n && id_to_depth@[x] > 0 ==> seen.contains((x as usize, #[trigger] id_to_depth@[x])),
            dag ==> forall|e: (usize, usize)|
                #[trigger] seen.contains(e) && e.1 > 0 ==> exists|k: int, j: int|
                    0 <= k < refs.len() && (#[trigger] refs[k]).id == e.0 && 0 <= j < refs[k].child_ids@.len()
                        && seen.contains((#[trigger] refs[k].child_ids@[j], (e.1 - 1) as usize)),
            dag ==> forall|e: (usize, usize)|
                #[trigger] seen.contains(e) && e.1 == 0 ==> leaf_among(refs, e.0, refs.len() as int),
            dag ==> forall|k: int|
                0 <= k < refs.len() && (#[trigger] refs[k]).child_ids@.len() == 0 ==> seen.contains(
                    (refs[k].id, 0usize),
                ),
        decreases stack_weight(stack@, b, limit as nat),
    {
        broadcast use vstd::std_specs::hash::group_hash_axioms;

        let ghost stack_prev = stack@;
        let (reference_id, depth) = stack.pop().unwrap();
        proof {
            assert(stack_prev =~= stack@.push((reference_id, depth)));
            lemma_stack_weight_push(stack@, (reference_id, depth), b, limit as nat);
            assert(stack_prev[stack_prev.len() - 1] == (reference_id, depth));
            assert(climbs(refs, reference_id, depth as nat));
            assert forall|a: int| 0 <= a < stack.len() implies climbs(refs, (#[trigger] stack@[a]).0, stack@[a].1 as nat) by {
                assert(stack@[a] == stack_prev[a]);
            }
            assert(met.contains((reference_id, depth)));
            assert forall|a: int| 0 <= a < stack.len() implies met.contains(#[trigger] stack@[a]) by {
                assert(stack@[a] == stack_prev[a]);
            }
            if dag {
                assert(seen.contains((reference_id, depth)));
            }
        }
        let dependent_ids = match reversed.get(&reference_id) {
            Some(reference) => &reference.child_ids,
            None => {
                proof {
                    assert(!has_dependent(refs, reference_id));
                    assert(is_root_id(refs, reference_id));
                    if is_root_id(refs, root_id) {
                        lemma_two_roots(refs, reference_id, root_id);
                    }
                }
                return Err(ScheduleError::MissingReference { id: reference_id });
            },
        };
        // A walk from a leaf that is longer than the number of nodes has gone round a cycle
        if depth >= limit {
            proof {
                if dag {
                    lemma_order_covers(refs, order);
                    let k = choose|k: int| 0 <= k < refs.len() && (#[trigger] refs[k]).id == reference_id;
                    assert(order.contains(refs[k].id));
                }
                assert(climbs(refs, reference_id, depth as nat));
            }
            return Err(ScheduleError::Cycle);
        }
        let ghost p = power(b, (limit - depth - 1) as nat);
        proof {
            lemma_parents_len(refs, reference_id);
            lemma_power_positive(b, (limit - depth - 1) as nat);
            assert(power(b, (limit - depth) as nat) == b * p);
            assert(dependent_ids@.len() * p + p <= b * p) by (nonlinear_arith)
                requires
                    dependent_ids@.len() + 1 <= b,
            ;
        }
        let ghost cur = (reference_id, depth);
        proof {
            assert forall|e: (usize, usize)| #[trigger] met.contains(e) implies stack@.contains(e) || e == cur || (e.1
                < limit && expanded(refs, reversed@, met, e)) by {
                if stack_prev.contains(e) && e != cur {
                    let a = choose|a: int| 0 <= a < stack_prev.len() && stack_prev[a] == e;
                    if a < stack.len() {
                        assert(stack@[a] == e);
                    }
                }
            }
        }
        let mut j: usize = 0;
        while j < dependent_ids.len()
            invariant
                refs == references@,
                ids_within(refs, max_id),
                n == max_id + 1,
                limit == refs.len(),
                depth < limit,
                limit < usize::MAX,
                p == power(b, (limit - depth - 1) as nat),
                p >= 1,
                id_to_depth.len() == n,
                dependent_ids@ == parents_of(refs, reference_id),
                reversed@.contains_key(reference_id),
                j <= dependent_ids.len(),
                stack_weight(stack@, b, limit as nat) + (dependent_ids@.len() - j) * p + p
                    <= stack_weight(stack_prev, b, limit as nat),
                forall|a: int| 0 <= a < stack.len() ==> (#[trigger] stack@[a]).0 < n && stack@[a].1 <= limit
                    && is_ref_id(refs, stack@[a].0),
                forall|a: int| 0 <= a < stack.len() ==> climbs(refs, (#[trigger] stack@[a]).0, stack@[a].1 as nat),
                climbs(refs, reference_id, depth as nat),
                forall|x: int| 0 <= x < n && id_to_depth@[x] > 0 ==> is_ref_id(refs, x as usize),
                forall|x: int| 0 <= x < n ==> #[trigger] id_to_depth@[x] <= limit,
                cur == (reference_id, depth),
                met.contains(cur),
                forall|a: int| 0 <= a < stack.len() ==> met.contains(#[trigger] stack@[a]),
                forall|e: (usize, usize)|
                    #[trigger] met.contains(e) ==> stack@.contains(e) || e == cur || (e.1 < limit && expanded(
                        refs,
                        reversed@,
                        met,
                        e,
                    )),
                forall|i: int| 0 <= i < j ==> met.contains((#[trigger] dependent_ids@[i], (depth + 1) as usize)),
                forall|k: int|
                    0 <= k < refs.len() && (#[trigger] refs[k]).child_ids@.len() == 0 ==> met.contains(
                        (refs[k].id, 0usize),
                    ),
                forall|e: (usize, usize)|
                    #[trigger] met.contains(e) ==> e.0 < n && climbs(refs, e.0, e.1 as nat) && e.1
                        <= id_to_depth@[e.0 as int],
                forall|x: int|
                    0 <= x < n && id_to_depth@[x] > 0 ==> met.contains((x as usize, #[trigger] id_to_depth@[x])),
                dag == (unique_ids(refs) && has_topological_order(refs)),
                dag ==> is_topological_order(refs, order),
                dag ==> seen.contains(cur),
                dag ==> forall|i: int|
                    0 <= i < j ==> seen.contains((#[trigger] dependent_ids@[i], (depth + 1) as usize)),
                dag ==> forall|a: int| 0 <= a < stack.len() ==> seen.contains(#[trigger] stack@[a]),
                dag ==> forall|e: (usize, usize)|
                    #[trigger] seen.contains(e) ==> stack@.contains(e) || e == cur || expanded(
                        refs,
                        reversed@,
                        seen,
                        e,
                    ),
                dag ==> forall|e: (usize, usize)|
                    #[trigger] seen.contains(e) ==> e.0 < n && e.1 <= id_to_depth@[e.0 as int] && e.1
                        <= position(order, e.0) && is_ref_id(refs, e.0),
                dag ==> forall|x: int|
                    0 <= x < n && id_to_depth@[x] > 0 ==> seen.contains((x as usize, #[trigger] id_to_depth@[x])),
                dag ==> forall|e: (usize, usize)|
                    #[trigger] seen.contains(e) && e.1 > 0 ==> exists|k: int, jj: int|
                        0 <= k < refs.len() && (#[trigger] refs[k]).id == e.0 && 0 <= jj
                            < refs[k].child_ids@.len() && seen.contains(
                            (#[trigger] refs[k].child_ids@[jj], (e.1 - 1) as usize),
                        ),
                dag ==> forall|e: (usize, usize)|
                    #[trigger] seen.contains(e) && e.1 == 0 ==> leaf_among(refs, e.0, refs.len() as int),
                dag ==> forall|k: int|
                    0 <= k < refs.len() && (#[trigger] refs[k]).child_ids@.len() == 0 ==> seen.contains(
                        (refs[k].id, 0usize),
                    ),
            decreases dependent_ids.len() - j,
        {
            let dependent_id = dependent_ids[j];
            let ghost kd: int;
            proof {
                lemma_parents_member(refs, reference_id, j as int);
                kd = choose|k: int|
                    0 <= k < refs.len() && (#[trigger] refs[k]).id == parents_of(refs, reference_id)[j as int]
                        && refs[k].child_ids@.contains(reference_id);
                assert(refs[kd].id <= max_id);
            }
            let new_depth = depth + 1;
            let ghost depths_before = id_to_depth@;
            if id_to_depth[dependent_id] < new_depth {
                id_to_depth.set(dependent_id, new_depth);
            }
            let ghost before = stack@;
            let ghost seen_before = seen;
            stack.push((dependent_id, new_depth));
            proof {
                lemma_stack_weight_push(before, (dependent_id, new_depth), b, limit as nat);
                assert((dependent_ids@.len() - j) * p == (dependent_ids@.len() - (j + 1)) * p + p) by (nonlinear_arith);
                assert(stack@[stack@.len() - 1] == (dependent_id, new_depth));
                assert forall|a: int| 0 <= a < stack.len() implies (#[trigger] stack@[a]).0 < n && stack@[a].1 <= limit
                    && is_ref_id(refs, stack@[a].0) by {
                    if a < before.len() {
                        assert(stack@[a] == before[a]);
                    }
                }
                lemma_climb_step(refs, kd, reference_id, depth as nat);
                assert(climbs(refs, dependent_id, new_depth as nat));
                assert forall|a: int| 0 <= a < stack.len() implies climbs(refs, (#[trigger] stack@[a]).0, stack@[a].1 as nat) by {
                    if a < before.len() {
                        assert(stack@[a] == before[a]);
                    }
                }
                if dag {
                    seen = seen.insert((dependent_id, new_depth));
                    let jc = choose|jc: int| 0 <= jc < refs[kd].child_ids@.len() && refs[kd].child_ids@[jc] == reference_id;
                    lemma_child_position(refs, order, kd, jc);
                    assert(seen_before.contains(cur));
                    assert forall|a: int| 0 <= a < stack.len() implies seen.contains(#[trigger] stack@[a]) by {
                        if a < before.len() {
                            assert(stack@[a] == before[a]);
                            assert(seen_before.contains(before[a]));
                        }
                    }
                    assert forall|e: (usize, usize)|
                        #[trigger] seen.contains(e) implies stack@.contains(e) || e == cur || expanded(
                        refs,
                        reversed@,
                        seen,
                        e,
                    ) by {
                        if e != (dependent_id, new_depth) {
                            assert(seen_before.contains(e));
                            if before.contains(e) {
                                let a = choose|a: int| 0 <= a < before.len() && before[a] == e;
                                assert(stack@[a] == e);
                            } else if e != cur {
                                assert(expanded(refs, reversed@, seen_before, e));
                                assert forall|i: int| 0 <= i < parents_of(refs, e.0).len() implies seen.contains(
                                    (#[trigger] parents_of(refs, e.0)[i], (e.1 + 1) as usize),
                                ) by {
                                    assert(seen_before.contains((parents_of(refs, e.0)[i], (e.1 + 1) as usize)));
                                }
                            }
                        }
                    }
                    assert forall|e: (usize, usize)| #[trigger] seen.contains(e) implies e.0 < n && e.1
                        <= id_to_depth@[e.0 as int] && e.1 <= position(order, e.0) && is_ref_id(refs, e.0) by {
                        if e != (dependent_id, new_depth) {
                            assert(seen_before.contains(e));
                        } else {
                            assert(refs[kd].id == dependent_id);
                        }
                    }
                    assert forall|x: int| 0 <= x < n && id_to_depth@[x] > 0 implies seen.contains(
                        (x as usize, #[trigger] id_to_depth@[x]),
                    ) by {
                        if x != dependent_id {
                            assert(seen_before.contains((x as usize, id_to_depth@[x])));
                        } else if id_to_depth@[x] != new_depth {
                            assert(seen_before.contains((x as usize, id_to_depth@[x])));
                        }
                    }
                    assert forall|e: (usize, usize)|
                        #[trigger] seen.contains(e) && e.1 > 0 implies exists|k: int, jj: int|
                        0 <= k < refs.len() && (#[trigger] refs[k]).id == e.0 && 0 <= jj
                            < refs[k].child_ids@.len() && seen.contains(
                            (#[trigger] refs[k].child_ids@[jj], (e.1 - 1) as usize),
                        ) by {
                        if e != (dependent_id, new_depth) {
                            assert(seen_before.contains(e));
                            let (k, jj) = choose|k: int, jj: int|
                                0 <= k < refs.len() && (#[trigger] refs[k]).id == e.0 && 0 <= jj
                                    < refs[k].child_ids@.len() && seen_before.contains(
                                    (#[trigger] refs[k].child_ids@[jj], (e.1 - 1) as usize),
                                );
                            assert(seen.contains((refs[k].child_ids@[jj], (e.1 - 1) as usize)));
                        } else {
                            assert(refs[kd].id == e.0);
                            assert(seen.contains((refs[kd].child_ids@[jc], (e.1 - 1) as usize)));
                        }
                    }
                    assert forall|e: (usize, usize)|
                        #[trigger] seen.contains(e) && e.1 == 0 implies leaf_among(refs, e.0, refs.len() as int) by {
                        if e != (dependent_id, new_depth) {
                            assert(seen_before.contains(e));
                        }
                    }
                    assert forall|i: int|
                        0 <= i < j + 1 implies seen.contains((#[trigger] dependent_ids@[i], (depth + 1) as usize)) by {
                        if i < j {
                            assert(seen_before.contains((dependent_ids@[i], (depth + 1) as usize)));
                        }
                    }
                    assert forall|k: int|
                        0 <= k < refs.len() && (#[trigger] refs[k]).child_ids@.len() == 0 implies seen.contains(
                        (refs[k].id, 0usize),
                    ) by {
                        assert(seen_before.contains((refs[k].id, 0usize)));
                    }
                }
            }
            proof {
                let met_before = met;
                met = met.insert((dependent_id, new_depth));
                lemma_met_insert(
                    refs,
                    reversed@,
                    met_before,
                    before,
                    stack@,
                    cur,
                    dependent_ids@,
                    j as int,
                    limit as nat,
                    depths_before,
                    id_to_depth@,
                    n as nat,
                );
            }
            j = j + 1;
        }
        proof {
            if dag {
                assert(expanded(refs, reversed@, seen, cur));
            }
            assert forall|i: int| 0 <= i < parents_of(refs, reference_id).len() implies met.contains(
                (#[trigger] parents_of(refs, reference_id)[i], (depth + 1) as usize),
            ) by {
                assert(dependent_ids@[i] == parents_of(refs, reference_id)[i]);
            }
            assert(expanded(refs, reversed@, met, cur));
        }
    }
    proof {
        if dag {
            lemma_walk_complete(refs, order, reversed@, seen, stack@, id_to_depth@, max_id, root_id);
        }
        assert forall|e: (usize, usize)| #[trigger] met.contains(e) implies e.1 < limit && expanded(
            refs,
            reversed@,
            met,
            e,
        ) by {}
        assert forall|x: usize, d: nat| #[trigger] climbs(refs, x, d) implies d < limit by {
            lemma_climbs_met(refs, reversed@, met, limit as nat, x, d);
        }
        assert forall|x: int| 0 <= x <= max_id implies longest_climb(refs, x as usize, #[trigger] id_to_depth@[x] as int) by {
            assert forall|d: nat| #[trigger] climbs(refs, x as usize, d) implies d <= id_to_depth@[x] by {
                lemma_climbs_met(refs, reversed@, met, limit as nat, x as usize, d);
                assert(met.contains((x as usize, d as usize)));
            }
            if id_to_depth@[x] > 0 {
                assert(met.contains((x as usize, id_to_depth@[x])));
            }
        }
    }
    Ok(id_to_depth)
}

/// Builds a layered schedule: node ids grouped into layers that can be
/// polled in parallel, layer by layer. Each node sits in the layer given by
/// the longest walk up to it from a leaf (layer 0 where none reaches it), so
/// in an acyclic graph a leaf sits in layer 0 and every other node one layer
/// above the highest of its children. Within a layer the ids ascend.
///
/// Fails on a graph that is not single-rooted, when the walk from the leaves
/// reaches a root other than `root_id`, and when it runs into a cycle: a
/// walk up from a leaf that is longer than there are references. A cycle
/// that no walk from a leaf reaches does not stop the schedule.
#[verifier::rlimit(60)]
#[verifier::spinoff_prover]
pub fn build_parallel_schedule(
    references: &Vec<Reference>,
    max_id: usize,
    root_id: usize,
) -> (result: Result<Vec<Vec<usize>>, ScheduleError>)
    requires
        is_single_rooted(references@) ==> ids_within(references@, max_id) && max_id < usize::MAX
            && references@.len() < usize::MAX,
    ensures
        !is_single_rooted(references@) ==> result == Err::<Vec<Vec<usize>>, ScheduleError>(
            ScheduleError::NotSingleRooted,
        ),
        match result {
            Ok(layers) => {
                &&& is_single_rooted(references@)
                &&& is_partition(references@, layers_view(layers@))
                &&& forall|x: usize, d: nat| #[trigger] climbs(references@, x, d) ==> d < references@.len()
                &&& forall|l: int, a: int|
                    0 <= l < layers@.len() && 0 <= a < layers@[l]@.len() ==> longest_climb(
                        references@,
                        #[trigger] layers@[l]@[a],
                        l,
                    )
                &&& layers@.len() > 0
                &&& layers@[layers@.len() - 1]@.len() > 0
            },
            Err(ScheduleError::NotSingleRooted) => !is_single_rooted(references@),
            Err(ScheduleError::MissingReference { id }) => {
                &&& is_single_rooted(references@)
                &&& is_root_id(references@, id)
                &&& !is_root_id(references@, root_id)
            },
            Err(ScheduleError::Cycle) => {
                &&& is_single_rooted(references@)
                &&& !(unique_ids(references@) && has_topological_order(references@))
                &&& exists|x: usize, d: nat| d >= references@.len() && #[trigger] climbs(references@, x, d)
            },
            Err(_) => false,
        },
        is_single_rooted(references@) && is_root_id(references@, root_id) ==> (result is Ok <==> !(exists|
            x: usize,
            d: nat,
        | d >= references@.len() && #[trigger] climbs(references@, x, d))),
        unique_ids(references@) && has_topological_order(references@) ==> (result is Ok <==> (
        is_single_rooted(references@) && is_root_id(references@, root_id))),
        unique_ids(references@) && has_topological_order(references@) ==> (result matches Ok(layers)
            ==> is_layering(references@, layers_view(layers@))),
{
    // Graph must have exactly one root since our final audio sample comes from the last executed node
    if !is_graph_single_rooted(references) {
        return Err(ScheduleError::NotSingleRooted);
    }
    let ghost refs = references@;
    let reversed = match reversed_references(references, root_id) {
        Ok(reversed) => reversed,
        Err(e) => return Err(e),
    };
    let n = max_id + 1;
    let mut is_node: Vec<bool> = filled(false, n);
    let mut i: usize = 0;
    while i < references.len()
        invariant
            refs == references@,
            ids_within(refs, max_id),
            n == max_id + 1,
            i <= refs.len(),
            is_node.len() == n,
            forall|x: int| 0 <= x < n ==> (#[trigger] is_node@[x] <==> id_among(refs, x as usize, i as int)),
        decreases refs.len() - i,
    {
        proof {
            assert(refs[i as int].id <= max_id);
        }
        is_node.set(references[i].id, true);
        proof {
            assert forall|x: int| 0 <= x < n implies (#[trigger] is_node@[x] <==> id_among(
                refs,
                x as usize,
                i + 1,
            )) by {
                if x == refs[i as int].id {
                    assert(refs[i as int].id == x);
                } else if id_among(refs, x as usize, i + 1) {
                    let k = choose|k: int| 0 <= k < i + 1 && (#[trigger] refs[k]).id == x as usize;
                    assert(k < i);
                }
            }
        }
        i = i + 1;
    }

    proof {
        assert forall|x: int| 0 <= x < n implies (#[trigger] is_node@[x] <==> is_ref_id(refs, x as usize)) by {
            if is_ref_id(refs, x as usize) {
                let k = choose|k: int| 0 <= k < refs.len() && (#[trigger] refs[k]).id == x as usize;
                assert(id_among(refs, x as usize, refs.len() as int));
            }
        }
    }
    let id_to_depth = match walk_depths(references, max_id, root_id, &reversed) {
        Ok(depths) => depths,
        Err(e) => return Err(e),
    };
    let ghost dag = unique_ids(refs) && has_topological_order(refs);
    let limit = references.len();
    let ghost depths = id_to_depth@;
    let mut max_depth: usize = 0;
    let mut x: usize = 0;
    while x < n
        invariant
            id_to_depth.len() == n,
            id_to_depth@ == depths,
            refs == references@,
            forall|y: int| 0 <= y < n && depths[y] > 0 ==> is_ref_id(refs, y as usize),
            max_depth == 0 || exists|y: int| 0 <= y < x && #[trigger] depths[y] == max_depth,
            x <= n,
            max_depth <= limit,
            limit < usize::MAX,
            forall|y: int| 0 <= y < n ==> #[trigger] id_to_depth@[y] <= limit,
            forall|y: int| 0 <= y < x ==> id_to_depth@[y] <= max_depth,
        decreases n - x,
    {
        if id_to_depth[x] > max_depth {
            max_depth = id_to_depth[x];
        }
        x = x + 1;
    }
    let mut schedule: Vec<Vec<usize>> = empty_lists(max_depth + 1);
    let mut x: usize = 0;
    while x < n
        invariant
            refs == references@,
            ids_within(refs, max_id),
            is_single_rooted(refs),
            id_to_depth@ == depths,
            forall|y: int| 0 <= y < n && depths[y] > 0 ==> is_ref_id(refs, y as usize),
            max_depth == 0 || exists|y: int| 0 <= y < n && #[trigger] depths[y] == max_depth,
            n == max_id + 1,
            x <= n,
            is_node.len() == n,
            forall|y: int| 0 <= y < n ==> (#[trigger] is_node@[y] <==> is_ref_id(refs, y as usize)),
            id_to_depth.len() == n,
            schedule.len() == max_depth + 1,
            forall|y: int| 0 <= y < n ==> #[trigger] id_to_depth@[y] <= max_depth,
            forall|l: int, a: int|
                0 <= l < schedule.len() && 0 <= a < schedule@[l]@.len() ==> #[trigger] schedule@[l]@[a] < x
                    && is_node@[schedule@[l]@[a] as int] && id_to_depth@[schedule@[l]@[a] as int] == l,
            forall|l: int, a: int, c: int|
                0 <= l < schedule.len() && 0 <= a < c < schedule@[l]@.len() ==> #[trigger] schedule@[l]@[a]
                    < #[trigger] schedule@[l]@[c],
            forall|y: int|
                0 <= y < x && #[trigger] is_node@[y] ==> schedule@[id_to_depth@[y] as int]@.contains(y as usize),
        decreases n - x,
    {
        if is_node[x] {
            let d = id_to_depth[x];
            let ghost before = schedule@;
            schedule[d].push(x);
            proof {
                assert forall|l: int, a: int|
                    0 <= l < schedule.len() && 0 <= a < schedule@[l]@.len() implies #[trigger] schedule@[l]@[a] < x + 1
                        && is_node@[schedule@[l]@[a] as int] && id_to_depth@[schedule@[l]@[a] as int] == l by {
                    if l == d && a == before[l]@.len() {
                    } else {
                        assert(schedule@[l]@[a] == before[l]@[a]);
                    }
                }
                assert forall|l: int, a: int, c: int|
                    0 <= l < schedule.len() && 0 <= a < c < schedule@[l]@.len() implies #[trigger] schedule@[l]@[a]
                        < #[trigger] schedule@[l]@[c] by {
                    assert(schedule@[l]@[a] == before[l]@[a]);
                    if !(l == d && c == before[l]@.len()) {
                        assert(schedule@[l]@[c] == before[l]@[c]);
                    }
                }
                assert forall|y: int|
                    0 <= y < x + 1 && #[trigger] is_node@[y] implies schedule@[id_to_depth@[y] as int]@.contains(y as usize) by {
                    if y < x {
                        let l = id_to_depth@[y] as int;
                        let a = choose|a: int| 0 <= a < before[l]@.len() && before[l]@[a] == y as usize;
                        assert(schedule@[l]@[a] == y as usize);
                    } else {
                        assert(schedule@[d as int]@[before[d as int]@.len() as int] == x);
                    }
                }
            }
        }
        x = x + 1;
    }
    proof {
        lemma_schedule_layers(refs, schedule@, is_node@, depths, max_id);
        assert forall|l: int, a: int| 0 <= l < schedule@.len() && 0 <= a < schedule@[l]@.len() implies longest_climb(
            refs,
            #[trigger] schedule@[l]@[a],
            l,
        ) by {
            assert(id_to_depth@[schedule@[l]@[a] as int] == l);
        }
        assert(schedule@[max_depth as int]@.len() > 0) by {
            if max_depth > 0 {
                let y = choose|y: int| 0 <= y < n && #[trigger] depths[y] == max_depth;
                assert(is_node@[y]);
                assert(schedule@[depths[y] as int]@.contains(y as usize));
            } else {
                lemma_single_rooted_nonempty(refs);
                let y = refs[0].id as int;
                assert(refs[0].id <= max_id);
                assert(is_ref_id(refs, refs[0].id));
                assert(is_node@[y]);
                assert(schedule@[depths[y] as int]@.contains(y as usize));
            }
        }
        if dag {
            if max_depth > 0 {
                let y = choose|y: int| 0 <= y < n && #[trigger] depths[y] == max_depth;
                let yu = y as usize;
                assert(is_ref_id(refs, yu));
                assert(depths[yu as int] == max_depth);
            }
            lemma_layering(refs, layers_view(schedule@), depths, n as int, max_depth as int);
        }
    }
    Ok(schedule)
}

} // verus!
