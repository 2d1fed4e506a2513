//! Planning a sample generator: from the references of a node graph to the
//! order and the layers in which its nodes are polled.
use vstd::prelude::*;

use crate::scheduler;
use crate::scheduler::{
    kept, Reference, ScheduleError, build_parallel_schedule, remove_isolated_references, schedule_references,
    root_id,
};

verus! {

/// `max_id` is the largest reference id.
pub open spec fn is_max_id(refs: Seq<Reference>, max_id: usize) -> bool {
    &&& scheduler::is_ref_id(refs, max_id)
    &&& forall|k: int| 0 <= k < refs.len() ==> (#[trigger] refs[k]).id <= max_id
}

/// What a sample generator needs from its graph: the largest node id, the
/// root whose output is the generator's output, the order in which nodes are
/// polled one by one, and the layers in which they can be polled in
/// parallel.
pub struct GeneratorPlan {
    pub max_id: usize,
    pub root_id: usize,
    pub schedule: Vec<usize>,
    pub layers: Vec<Vec<usize>>,
}

fn largest_id(references: &Vec<Reference>) -> (max_id: usize)
    requires
        references@.len() > 0,
    ensures
        is_max_id(references@, max_id),
{
    let mut max_id: usize = references[0].id;
    let mut i: usize = 1;
    while i < references.len()
        invariant
            1 <= i <= references@.len(),
            exists|k: int| 0 <= k < i && (#[trigger] references@[k]).id == max_id,
            forall|k: int| 0 <= k < i ==> (#[trigger] references@[k]).id <= max_id,
        decreases references@.len() - i,
    {
        if references[i].id > max_id {
            max_id = references[i].id;
        }
        i = i + 1;
    }
    max_id
}

/// Filtering keeps ids unique.
proof fn lemma_filter_unique_ids(s: Seq<Reference>, pred: spec_fn(Reference) -> bool)
    requires
        scheduler::unique_ids(s),
    ensures
        scheduler::unique_ids(s.filter(pred)),
    decreases s.len(),
{
    broadcast use vstd::seq_lib::group_filter_ensures;

    reveal_with_fuel(Seq::<_>::filter, 1);
    if s.len() > 0 {
        let rest = s.drop_last();
        assert(scheduler::unique_ids(rest)) by {
            assert forall|a: int, b: int|
                0 <= a < rest.len() && 0 <= b < rest.len() && a != b implies (#[trigger] rest[a]).id != (
                #[trigger] rest[b]).id by {
                assert(rest[a] == s[a] && rest[b] == s[b]);
            }
        }
        lemma_filter_unique_ids(rest, pred);
        let sub = rest.filter(pred);
        if pred(s.last()) {
            let f = sub.push(s.last());
            assert forall|a: int, b: int|
                0 <= a < f.len() && 0 <= b < f.len() && a != b implies (#[trigger] f[a]).id != (
                #[trigger] f[b]).id by {
                if a == f.len() - 1 || b == f.len() - 1 {
                    let o = if a == f.len() - 1 { b } else { a };
                    assert(f[o] == sub[o]);
                    assert(sub.contains(sub[o]));
                    rest.lemma_filter_contains_rev(pred, sub[o]);
                    let i = choose|i: int| 0 <= i < rest.len() && rest[i] == sub[o];
                    assert(s[i] == rest[i]);
                    assert(s[s.len() - 1] == s.last());
                } else {
                    assert(f[a] == sub[a] && f[b] == sub[b]);
                }
            }
        }
    }
}

/// The kept references name ids of the graph, and, once every child of
/// theirs is known, stay within its largest id.
proof fn lemma_kept_within(refs: Seq<Reference>, max_id: usize)
    requires
        is_max_id(refs, max_id),
        scheduler::children_known(kept(refs)),
    ensures
        scheduler::ids_within(kept(refs), max_id),
        kept(refs).len() <= refs.len(),
{
    broadcast use vstd::seq_lib::group_filter_ensures;

    let pred = |r: Reference| !scheduler::is_isolated_id(refs, r.id);
    let t = kept(refs);
    assert(t == refs.filter(pred));
    assert forall|k: int| 0 <= k < t.len() implies (#[trigger] t[k]).id <= max_id by {
        assert(t.contains(t[k]));
        refs.lemma_filter_contains_rev(pred, t[k]);
        let i = choose|i: int| 0 <= i < refs.len() && refs[i] == t[k];
        assert(refs[i].id <= max_id);
    }
    assert forall|k: int| 0 <= k < t.len() implies {
        &&& (#[trigger] t[k]).id <= max_id
        &&& forall|j: int| 0 <= j < t[k].child_ids@.len() ==> t[k].child_ids@[j] <= max_id
    } by {
        assert forall|j: int| 0 <= j < t[k].child_ids@.len() implies t[k].child_ids@[j] <= max_id by {
            assert(scheduler::is_ref_id(t, t[k].child_ids@[j]));
            let k2 = choose|k2: int| 0 <= k2 < t.len() && (#[trigger] t[k2]).id == t[k].child_ids@[j];
            assert(t[k2].id <= max_id);
        }
    }
}

/// Once the isolated nodes of a graph with unique ids are removed, no node
/// left is isolated: removing them again changes nothing.
pub proof fn lemma_kept_has_no_isolated(refs: Seq<Reference>)
    requires
        scheduler::unique_ids(refs),
    ensures
        forall|k: int|
            0 <= k < kept(refs).len() ==> !scheduler::is_isolated_id(kept(refs), (#[trigger] kept(refs)[k]).id),
{
    broadcast use vstd::seq_lib::group_filter_ensures;

    let pred = |r: Reference| !scheduler::is_isolated_id(refs, r.id);
    let t = kept(refs);
    assert(t == refs.filter(pred));
    lemma_filter_unique_ids(refs, pred);
    assert forall|k: int| 0 <= k < t.len() implies !scheduler::is_isolated_id(t, (#[trigger] t[k]).id) by {
        let r = t[k];
        assert(t.contains(r));
        refs.lemma_filter_contains_rev(pred, r);
        let i = choose|i: int| 0 <= i < refs.len() && refs[i] == r;
        assert(pred(r));
        if scheduler::is_isolated_id(t, r.id) {
            let k2 = choose|k2: int|
                0 <= k2 < t.len() && (#[trigger] t[k2]).id == r.id && t[k2].child_ids@.len() == 0;
            assert(k2 == k);
            assert(r.child_ids@.len() == 0);
            assert(scheduler::has_several_ids(refs)) by {
                let (a, b) = choose|a: int, b: int|
                    0 <= a < t.len() && 0 <= b < t.len() && (#[trigger] t[a]).id != (#[trigger] t[b]).id;
                assert(t.contains(t[a]) && t.contains(t[b]));
                refs.lemma_filter_contains_rev(pred, t[a]);
                refs.lemma_filter_contains_rev(pred, t[b]);
                let ia = choose|ia: int| 0 <= ia < refs.len() && refs[ia] == t[a];
                let ib = choose|ib: int| 0 <= ib < refs.len() && refs[ib] == t[b];
                assert(refs[ia].id != refs[ib].id);
            }
            assert(refs[i].id == r.id && refs[i].child_ids@.len() == 0);
            assert(scheduler::has_dependent(refs, r.id));
            let d = choose|d: int| 0 <= d < refs.len() && (#[trigger] refs[d]).child_ids@.contains(r.id);
            assert(!scheduler::is_isolated_id(refs, refs[d].id)) by {
                if scheduler::is_isolated_id(refs, refs[d].id) {
                    let d2 = choose|d2: int|
                        0 <= d2 < refs.len() && (#[trigger] refs[d2]).id == refs[d].id
                            && refs[d2].child_ids@.len() == 0;
                    assert(d2 == d);
                }
            }
            assert(pred(refs[d]));
            assert(t.contains(refs[d]));
            let td = choose|td: int| 0 <= td < t.len() && t[td] == refs[d];
            assert(scheduler::has_dependent(t, r.id));
        }
    }
}

/// Plans a sample generator for the graph given by `references`: its
/// largest node id, its root, the order in which its nodes are polled, and
/// the layers in which they can be polled in parallel. Isolated nodes take
/// no part in the plan.
///
/// Fails on an empty graph, and as `root_id`, `build_schedule` and
/// `build_parallel_schedule` fail on the references that remain.
pub fn plan_generator(references: Vec<Reference>) -> (result: Result<GeneratorPlan, ScheduleError>)
    requires
        forall|k: int| 0 <= k < references@.len() ==> (#[trigger] references@[k]).id < usize::MAX,
        references@.len() < usize::MAX,
    ensures
        references@.len() == 0 <==> result == Err::<GeneratorPlan, ScheduleError>(
            ScheduleError::NoNodes,
        ),
        match result {
            Ok(plan) => {
                &&& is_max_id(references@, plan.max_id)
                &&& scheduler::is_single_rooted(kept(references@))
                &&& scheduler::is_root_id(kept(references@), plan.root_id)
                &&& plan.schedule@.len() == kept(references@).len()
                &&& scheduler::is_partition(kept(references@), scheduler::layers_view(plan.layers@))
                &&& scheduler::unique_ids(references@) ==> scheduler::is_topological_order(
                    kept(references@),
                    plan.schedule@,
                )
                &&& scheduler::unique_ids(references@) ==> scheduler::is_layering(
                    kept(references@),
                    scheduler::layers_view(plan.layers@),
                )
                &&& scheduler::unique_ids(references@) ==> plan.layers@.len() > 0
                    && plan.layers@.last()@ == seq![plan.root_id]
                &&& forall|l: int, a: int|
                    0 <= l < plan.layers@.len() && 0 <= a < plan.layers@[l]@.len() ==> #[trigger] plan.layers@[l]@[a]
                        <= plan.max_id
                &&& forall|j: int|
                    0 <= j < plan.schedule@.len() ==> scheduler::is_ref_id(kept(references@), #[trigger] plan.schedule@[j])
                &&& forall|l: int, a: int|
                    0 <= l < plan.layers@.len() && 0 <= a < plan.layers@[l]@.len() ==> scheduler::longest_climb(
                        kept(references@),
                        #[trigger] plan.layers@[l]@[a],
                        l,
                    )
                &&& plan.layers@.len() > 0
                &&& plan.layers@[plan.layers@.len() - 1]@.len() > 0
            },
            Err(ScheduleError::NoNodes) => references@.len() == 0,
            Err(ScheduleError::UnknownChild { id }) => {
                &&& !scheduler::is_ref_id(kept(references@), id)
                &&& exists|k: int, j: int|
                    0 <= k < kept(references@).len() && 0 <= j < kept(references@)[k].child_ids@.len()
                        && #[trigger] kept(references@)[k].child_ids@[j] == id
            },
            Err(ScheduleError::EmptyGraph) => {
                &&& references@.len() > 0
                &&& scheduler::children_known(kept(references@))
                &&& forall|k: int|
                    0 <= k < kept(references@).len() ==> scheduler::has_dependent(
                        kept(references@),
                        (#[trigger] kept(references@)[k]).id,
                    )
            },
            Err(ScheduleError::NotSingleRooted) => {
                &&& scheduler::children_known(kept(references@))
                &&& !scheduler::is_single_rooted(kept(references@))
            },
            Err(ScheduleError::NoLeaves) => {
                &&& scheduler::is_single_rooted(kept(references@))
                &&& !scheduler::has_leaf(kept(references@))
            },
            Err(ScheduleError::Incomplete { received, scheduled }) => {
                &&& scheduler::is_single_rooted(kept(references@))
                &&& received == kept(references@).len()
                &&& scheduled != received
                &&& !scheduler::unique_ids(references@)
                    || !scheduler::has_topological_order(kept(references@))
            },
            Err(ScheduleError::Cycle) => {
                &&& !scheduler::unique_ids(references@)
                &&& exists|x: usize, d: nat|
                    d >= kept(references@).len() && #[trigger] scheduler::climbs(kept(references@), x, d)
            },
            Err(_) => false,
        },
        scheduler::unique_ids(references@) ==> (result is Ok <==> (references@.len() > 0
            && scheduler::is_single_rooted(kept(references@)) && scheduler::has_topological_order(
            kept(references@),
        ))),
{
    let ghost refs = references@;
    if references.len() == 0 {
        return Err(ScheduleError::NoNodes);
    }
    let max_id = largest_id(&references);
    // Isolated nodes in graphs with multiple nodes have no semantic meaning, so
    // removing them helps verify that the graph is valid
    let trimmed = remove_isolated_references(references);
    let ghost t = trimmed@;
    proof {
        assert(t == kept(refs));
        if scheduler::unique_ids(refs) {
            lemma_filter_unique_ids(refs, |r: Reference| !scheduler::is_isolated_id(refs, r.id));
        }
        if scheduler::unique_ids(refs) && scheduler::is_single_rooted(t) && scheduler::has_topological_order(t) {
            let order = choose|order: Seq<usize>| scheduler::is_topological_order(t, order);
            scheduler::lemma_topological_children_known(t, order);
            scheduler::lemma_root_exists(t);
        }
    }
    let root = match root_id(&trimmed) {
        Ok(id) => id,
        Err(e) => return Err(e),
    };
    proof {
        lemma_kept_within(refs, max_id);
        assert(scheduler::is_root_id(t, root));
    }
    let schedule = match schedule_references(&trimmed, max_id) {
        Ok(schedule) => schedule,
        Err(e) => return Err(e),
    };
    let layers = match build_parallel_schedule(&trimmed, max_id, root) {
        Ok(layers) => layers,
        Err(e) => {
            proof {
                if scheduler::unique_ids(refs) {
                    assert(scheduler::unique_ids(t));
                }
            }
            return Err(e);
        },
    };
    proof {
        let lv = scheduler::layers_view(layers@);
        assert forall|l: int, a: int| 0 <= l < layers@.len() && 0 <= a < layers@[l]@.len() implies #[trigger] layers@[l]@[a]
            <= max_id by {
            assert(lv[l] == layers@[l]@);
            assert(scheduler::is_ref_id(t, lv[l][a]));
        }
        if scheduler::unique_ids(refs) {
            assert(scheduler::unique_ids(t));
            scheduler::lemma_root_alone_in_last_layer(t, lv, root);
            assert(lv.last() == layers@.last()@);
        }
    }
    Ok(GeneratorPlan { max_id, root_id: root, schedule, layers })
}

} // verus!
