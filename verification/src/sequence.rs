//! Sample intervals: which intervals are playing at each sample index, as
//! a sequencer steps through them one sample at a time.
use std::collections::HashSet;
use vstd::prelude::*;

verus! {

/// An interval of sample indices, both bounds inclusive, during which the
/// samples of a source are played.
#[derive(Clone, Copy, Debug, Hash, PartialEq, Eq, Structural)]
pub struct SourceInterval {
    pub source_id: usize,
    /// Inclusive bound
    pub start_index: u32,
    /// Inclusive bound
    pub end_index: u32,
}

impl SourceInterval {
    pub fn new(source_id: usize, start_index: u32, end_index: u32) -> (interval: Self)
        ensures
            interval == (SourceInterval { source_id, start_index, end_index }),
    {
        SourceInterval { source_id, start_index, end_index }
    }
}

/// `order` lists indices by ascending key, and indices with equal keys in
/// ascending order.
pub open spec fn sorted_by_key(keys: Seq<u32>, order: Seq<usize>) -> bool {
    forall|a: int, b: int|
        0 <= a < b < order.len() ==> keys[#[trigger] order[a] as int] < keys[#[trigger] order[b] as int]
            || (keys[order[a] as int] == keys[order[b] as int] && order[a] < order[b])
}

/// `order` lists each of the indices `0..n` once.
pub open spec fn lists_indices(order: Seq<usize>, n: nat) -> bool {
    &&& order.len() == n
    &&& forall|i: int| 0 <= i < order.len() ==> #[trigger] order[i] < n
    &&& forall|g: usize| g < n ==> order.contains(g)
}

/// The indices of `keys` in the order of a stable sort by key.
pub fn stable_order(keys: &Vec<u32>) -> (order: Vec<usize>)
    ensures
        lists_indices(order@, keys@.len()),
        sorted_by_key(keys@, order@),
{
    let mut order: Vec<usize> = Vec::new();
    let mut g: usize = 0;
    while g < keys.len()
        invariant
            g <= keys@.len(),
            lists_indices(order@, g as nat),
            sorted_by_key(keys@, order@),
        decreases keys@.len() - g,
    {
        let key = keys[g];
        let mut p: usize = 0;
        while p < order.len() && keys[order[p]] <= key
            invariant
                p <= order@.len(),
                lists_indices(order@, g as nat),
                sorted_by_key(keys@, order@),
                g < keys@.len(),
                key == keys@[g as int],
                forall|i: int| 0 <= i < p ==> keys@[#[trigger] order@[i] as int] <= key,
            decreases order@.len() - p,
        {
            p = p + 1;
        }
        let ghost before = order@;
        proof {
            assert forall|i: int| p <= i < before.len() implies keys@[#[trigger] before[i] as int] > key by {
                if keys@[before[p as int] as int] > key {
                    if i > p {
                        assert(keys@[before[p as int] as int] <= keys@[before[i] as int]);
                    }
                }
            }
        }
        order.insert(p, g);
        proof {
            let o = order@;
            assert forall|i: int| 0 <= i < o.len() implies #[trigger] o[i] < g + 1 by {
                if i < p {
                    assert(o[i] == before[i]);
                } else if i > p {
                    assert(o[i] == before[i - 1]);
                }
            }
            assert forall|x: usize| x < g + 1 implies o.contains(x) by {
                if x == g {
                    assert(o[p as int] == g);
                } else {
                    assert(before.contains(x));
                    let i = choose|i: int| 0 <= i < before.len() && before[i] == x;
                    if i < p {
                        assert(o[i] == x);
                    } else {
                        assert(o[i + 1] == x);
                    }
                }
            }
            assert forall|a: int, b: int| 0 <= a < b < o.len() implies keys@[#[trigger] o[a] as int] < keys@[
                #[trigger] o[b] as int]
                || (keys@[o[a] as int] == keys@[o[b] as int] && o[a] < o[b]) by {
                if b < p {
                    assert(o[a] == before[a] && o[b] == before[b]);
                } else if b == p {
                    assert(o[a] == before[a]);
                    assert(before[a] < g);
                } else if a < p {
                    assert(o[a] == before[a] && o[b] == before[b - 1]);
                } else if a == p {
                    assert(o[b] == before[b - 1]);
                } else {
                    assert(o[a] == before[a - 1] && o[b] == before[b - 1]);
                }
            }
        }
        g = g + 1;
    }
    order
}

/// Whether an interval from `start` to `end` is playing once sample index
/// `t` has been processed. An interval starts playing at its start index and
/// stops after its end index. One whose end comes before its start keeps
/// playing from its start on: its stop was processed first. Where the stop
/// and the start fall on one sample index, `dequeue_first` says which is
/// processed first.
pub open spec fn is_playing(start: u32, end: u32, dequeue_first: bool, t: int) -> bool {
    &&& start <= t
    &&& t <= end || if dequeue_first {
        start > end
    } else {
        start > end + 1
    }
}

/// Every interval has started and stopped by sample index `t`.
pub open spec fn all_done(starts: Seq<u32>, ends: Seq<u32>, t: int) -> bool {
    forall|g: int| 0 <= g < starts.len() ==> (#[trigger] starts[g]) <= t && ends[g] < t
}

/// The indices below `n` of the intervals playing at sample index `t`, in
/// ascending order.
pub open spec fn playing_indices(starts: Seq<u32>, ends: Seq<u32>, dequeue_first: bool, t: int, n: int) -> Seq<
    usize,
>
    decreases n,
{
    if n <= 0 {
        Seq::empty()
    } else if is_playing(starts[n - 1], ends[n - 1], dequeue_first, t) {
        playing_indices(starts, ends, dequeue_first, t, n - 1).push((n - 1) as usize)
    } else {
        playing_indices(starts, ends, dequeue_first, t, n - 1)
    }
}

/// `g` sits in `order` at some position in `lo..hi`.
pub open spec fn listed_between(order: Seq<usize>, g: usize, lo: int, hi: int) -> bool {
    exists|i: int| lo <= i < hi && order[i] == g
}

/// Tracks which of a list of intervals are playing, one sample index after
/// another. Intervals start in the order of their start indices and stop
/// in the order of their end indices.
pub struct IntervalTracker {
    starts: Vec<u32>,
    ends: Vec<u32>,
    dequeue_first: bool,
    start_order: Vec<usize>,
    end_order: Vec<usize>,
    active: HashSet<usize>,
    next_queue_index: usize,
    next_dequeue_index: usize,
    current_sample_index: u32,
}

/// A tracker as a mathematical value: the start and the end index of each
/// interval, which of the two goes first on one sample index, and the next
/// sample index.
pub type TrackerView = (Seq<u32>, Seq<u32>, bool, u32);

impl View for IntervalTracker {
    type V = TrackerView;

    closed spec fn view(&self) -> TrackerView {
        (self.starts@, self.ends@, self.dequeue_first, self.current_sample_index)
    }
}

impl IntervalTracker {
    /// The state once sample index `p` has been processed: the intervals that
    /// started by then come first in the start order, those that stopped by
    /// then first in the end order, and the playing ones are marked.
    spec fn processed_through(&self, p: int) -> bool {
        let n = self.starts@.len();
        &&& self.next_queue_index <= n
        &&& self.next_dequeue_index <= n
        &&& forall|i: int|
            0 <= i < self.next_queue_index ==> self.starts@[#[trigger] self.start_order@[i] as int] <= p
        &&& forall|i: int|
            self.next_queue_index <= i < n ==> self.starts@[#[trigger] self.start_order@[i] as int] > p
        &&& forall|i: int|
            0 <= i < self.next_dequeue_index ==> self.ends@[#[trigger] self.end_order@[i] as int] < p
        &&& forall|i: int|
            self.next_dequeue_index <= i < n ==> self.ends@[#[trigger] self.end_order@[i] as int] >= p
        &&& forall|g: usize|
            g < n ==> #[trigger] self.active@.contains(g) == is_playing(
                self.starts@[g as int],
                self.ends@[g as int],
                self.dequeue_first,
                p,
            )
    }

    spec fn orders_ok(&self) -> bool {
        let n = self.starts@.len();
        &&& self.ends@.len() == n
        &&& lists_indices(self.start_order@, n)
        &&& sorted_by_key(self.starts@, self.start_order@)
        &&& lists_indices(self.end_order@, n)
        &&& sorted_by_key(self.ends@, self.end_order@)
    }

    /// The orders sort the intervals, and the state is that after the last
    /// sample index processed: the one before the next, or the next itself
    /// once the stream has ended there.
    pub closed spec fn wf(&self) -> bool {
        let t = self.current_sample_index as int;
        &&& self.orders_ok()
        &&& self.processed_through(t - 1) || (all_done(self.starts@, self.ends@, t) && self.processed_through(t))
    }

    /// A tracker for the intervals from `starts[g]` to `ends[g]`, at sample
    /// index 0 with nothing playing.
    pub fn new(starts: Vec<u32>, ends: Vec<u32>, dequeue_first: bool) -> (tracker: Self)
        requires
            starts@.len() == ends@.len(),
        ensures
            tracker.wf(),
            tracker@ == (starts@, ends@, dequeue_first, 0u32),
    {
        let start_order = stable_order(&starts);
        let end_order = stable_order(&ends);
        let active: HashSet<usize> = HashSet::new();
        proof {
            assert(active@ == Set::<usize>::empty());
        }
        IntervalTracker {
            starts,
            ends,
            dequeue_first,
            start_order,
            end_order,
            active,
            next_queue_index: 0,
            next_dequeue_index: 0,
            current_sample_index: 0,
        }
    }

    /// Starts the intervals whose start index is `t`.
    fn queue_started(&mut self, t: u32)
        requires
            old(self).orders_ok(),
            old(self).next_queue_index <= old(self).starts@.len(),
            forall|i: int|
                0 <= i < old(self).next_queue_index ==> old(self).starts@[#[trigger] old(self).start_order@[i] as int] < t,
            forall|i: int|
                old(self).next_queue_index <= i < old(self).starts@.len() ==> old(self).starts@[
                    #[trigger] old(self).start_order@[i] as int] >= t,
        ensures
            final(self).orders_ok(),
            final(self).starts == old(self).starts,
            final(self).ends == old(self).ends,
            final(self).dequeue_first == old(self).dequeue_first,
            final(self).start_order == old(self).start_order,
            final(self).end_order == old(self).end_order,
            final(self).next_dequeue_index == old(self).next_dequeue_index,
            final(self).current_sample_index == old(self).current_sample_index,
            final(self).next_queue_index <= final(self).starts@.len(),
            forall|i: int|
                0 <= i < final(self).next_queue_index ==> final(self).starts@[#[trigger] final(self).start_order@[i] as int] <= t,
            forall|i: int|
                final(self).next_queue_index <= i < final(self).starts@.len() ==> final(self).starts@[
                    #[trigger] final(self).start_order@[i] as int] > t,
            forall|g: usize|
                g < final(self).starts@.len() ==> #[trigger] final(self).active@.contains(g) == (old(
                    self,
                ).active@.contains(g) || old(self).starts@[g as int] == t),
    {
        let ghost q0 = self.next_queue_index as int;
        let ghost before = self.active@;
        let n = self.starts.len();
        while self.next_queue_index < n && self.starts[self.start_order[self.next_queue_index]] <= t
            invariant
                self.orders_ok(),
                n == self.starts@.len(),
                self.starts == old(self).starts,
                self.ends == old(self).ends,
                self.dequeue_first == old(self).dequeue_first,
                self.start_order == old(self).start_order,
                self.end_order == old(self).end_order,
                self.next_dequeue_index == old(self).next_dequeue_index,
                self.current_sample_index == old(self).current_sample_index,
                q0 <= self.next_queue_index <= n,
                forall|i: int| 0 <= i < q0 ==> self.starts@[#[trigger] self.start_order@[i] as int] < t,
                forall|i: int| q0 <= i < n ==> self.starts@[#[trigger] self.start_order@[i] as int] >= t,
                forall|i: int|
                    q0 <= i < self.next_queue_index ==> self.starts@[#[trigger] self.start_order@[i] as int]
                        == t,
                forall|g: usize|
                    g < n ==> #[trigger] self.active@.contains(g) == (before.contains(g) || listed_between(
                        self.start_order@,
                        g,
                        q0,
                        self.next_queue_index as int,
                    )),
            decreases n - self.next_queue_index,
        {
            broadcast use vstd::std_specs::hash::group_hash_axioms;

            let g = self.start_order[self.next_queue_index];
            let ghost q = self.next_queue_index as int;
            let ghost mid = self.active@;
            self.active.insert(g);
            self.next_queue_index = self.next_queue_index + 1;
            proof {
                assert(self.active@ == mid.insert(g));
                assert forall|h: usize| h < n implies #[trigger] self.active@.contains(h) == (before.contains(h)
                    || listed_between(self.start_order@, h, q0, self.next_queue_index as int)) by {
                    if h == g {
                        assert(self.start_order@[q] == g);
                    } else {
                        assert(self.active@.contains(h) == mid.contains(h));
                        if listed_between(self.start_order@, h, q0, self.next_queue_index as int) {
                            let i = choose|i: int| q0 <= i < self.next_queue_index && self.start_order@[i] == h;
                            assert(i != q);
                        }
                    }
                }
            }
        }
        proof {
            let so = self.start_order@;
            let q = self.next_queue_index as int;
            assert forall|i: int| q <= i < n implies self.starts@[#[trigger] so[i] as int] > t by {
                if i > q {
                    assert(self.starts@[so[q] as int] <= self.starts@[so[i] as int]);
                }
            }
            assert forall|g: usize| g < n implies #[trigger] self.active@.contains(g) == (before.contains(g)
                || self.starts@[g as int] == t) by {
                if self.starts@[g as int] == t {
                    assert(so.contains(g));
                    let i = choose|i: int| 0 <= i < so.len() && so[i] == g;
                    assert(listed_between(so, g, q0, q));
                }
                if listed_between(so, g, q0, q) {
                    let i = choose|i: int| q0 <= i < q && so[i] == g;
                }
            }
        }
    }

    /// Stops the intervals whose end index is just before `t`.
    fn dequeue_ended(&mut self, t: u32)
        requires
            old(self).orders_ok(),
            old(self).next_dequeue_index <= old(self).starts@.len(),
            forall|i: int|
                0 <= i < old(self).next_dequeue_index ==> old(self).ends@[#[trigger] old(self).end_order@[i] as int] < t - 1,
            forall|i: int|
                old(self).next_dequeue_index <= i < old(self).starts@.len() ==> old(self).ends@[
                    #[trigger] old(self).end_order@[i] as int] >= t - 1,
        ensures
            final(self).orders_ok(),
            final(self).starts == old(self).starts,
            final(self).ends == old(self).ends,
            final(self).dequeue_first == old(self).dequeue_first,
            final(self).start_order == old(self).start_order,
            final(self).end_order == old(self).end_order,
            final(self).next_queue_index == old(self).next_queue_index,
            final(self).current_sample_index == old(self).current_sample_index,
            final(self).next_dequeue_index <= final(self).starts@.len(),
            forall|i: int|
                0 <= i < final(self).next_dequeue_index ==> final(self).ends@[#[trigger] final(self).end_order@[i] as int] < t,
            forall|i: int|
                final(self).next_dequeue_index <= i < final(self).starts@.len() ==> final(self).ends@[
                    #[trigger] final(self).end_order@[i] as int] >= t,
            forall|g: usize|
                g < final(self).starts@.len() ==> #[trigger] final(self).active@.contains(g) == (old(
                    self,
                ).active@.contains(g) && old(self).ends@[g as int] != t - 1),
    {
        let ghost d0 = self.next_dequeue_index as int;
        let ghost before = self.active@;
        let n = self.starts.len();
        while self.next_dequeue_index < n && self.ends[self.end_order[self.next_dequeue_index]] < t
            invariant
                self.orders_ok(),
                n == self.starts@.len(),
                self.starts == old(self).starts,
                self.ends == old(self).ends,
                self.dequeue_first == old(self).dequeue_first,
                self.start_order == old(self).start_order,
                self.end_order == old(self).end_order,
                self.next_queue_index == old(self).next_queue_index,
                self.current_sample_index == old(self).current_sample_index,
                d0 <= self.next_dequeue_index <= n,
                forall|i: int| 0 <= i < d0 ==> self.ends@[#[trigger] self.end_order@[i] as int] < t - 1,
                forall|i: int| d0 <= i < n ==> self.ends@[#[trigger] self.end_order@[i] as int] >= t - 1,
                forall|i: int|
                    d0 <= i < self.next_dequeue_index ==> self.ends@[#[trigger] self.end_order@[i] as int]
                        == t - 1,
                forall|g: usize|
                    g < n ==> #[trigger] self.active@.contains(g) == (before.contains(g) && !listed_between(
                        self.end_order@,
                        g,
                        d0,
                        self.next_dequeue_index as int,
                    )),
            decreases n - self.next_dequeue_index,
        {
            broadcast use vstd::std_specs::hash::group_hash_axioms;

            let g = self.end_order[self.next_dequeue_index];
            let ghost d = self.next_dequeue_index as int;
            let ghost mid = self.active@;
            self.active.remove(&g);
            self.next_dequeue_index = self.next_dequeue_index + 1;
            proof {
                assert(self.active@ == mid.remove(g));
                assert forall|h: usize| h < n implies #[trigger] self.active@.contains(h) == (before.contains(h)
                    && !listed_between(self.end_order@, h, d0, self.next_dequeue_index as int)) by {
                    if h == g {
                        assert(self.end_order@[d] == g);
                    } else {
                        assert(self.active@.contains(h) == mid.contains(h));
                        if listed_between(self.end_order@, h, d0, self.next_dequeue_index as int) {
                            let i = choose|i: int| d0 <= i < self.next_dequeue_index && self.end_order@[i] == h;
                            assert(i != d);
                            assert(listed_between(self.end_order@, h, d0, d));
                        }
                    }
                }
            }
        }
        proof {
            let eo = self.end_order@;
            let d = self.next_dequeue_index as int;
            assert forall|i: int| d <= i < n implies self.ends@[#[trigger] eo[i] as int] >= t by {
                if i > d {
                    assert(self.ends@[eo[d] as int] <= self.ends@[eo[i] as int]);
                }
            }
            assert forall|g: usize| g < n implies #[trigger] self.active@.contains(g) == (before.contains(g)
                && self.ends@[g as int] != t - 1) by {
                if self.ends@[g as int] == t - 1 {
                    assert(eo.contains(g));
                    let i = choose|i: int| 0 <= i < eo.len() && eo[i] == g;
                    assert(listed_between(eo, g, d0, d));
                }
                if listed_between(eo, g, d0, d) {
                    let i = choose|i: int| d0 <= i < d && eo[i] == g;
                }
            }
        }
    }

    /// The next sample index.
    pub fn current_sample_index(&self) -> (t: u32)
        ensures
            t == self@.3,
    {
        self.current_sample_index
    }

    /// Processes the next sample index: starts and stops the intervals due
    /// there, and gives the indices of the intervals playing, in ascending
    /// order, moving on to the next sample index. Once every interval has
    /// started and stopped there is nothing left to play: gives `None`, and
    /// stays at the same sample index.
    pub fn poll(&mut self) -> (playing: Option<Vec<usize>>)
        requires
            old(self).wf(),
            old(self)@.3 < u32::MAX || forall|g: int| 0 <= g < old(self)@.1.len() ==> #[trigger] old(self)@.1[g]
                < u32::MAX,
        ensures
            final(self).wf(),
            final(self)@.0 == old(self)@.0,
            final(self)@.1 == old(self)@.1,
            final(self)@.2 == old(self)@.2,
            match playing {
                None => {
                    &&& all_done(old(self)@.0, old(self)@.1, old(self)@.3 as int)
                    &&& final(self)@.3 == old(self)@.3
                },
                Some(indices) => {
                    &&& !all_done(old(self)@.0, old(self)@.1, old(self)@.3 as int)
                    &&& indices@ == playing_indices(
                        old(self)@.0,
                        old(self)@.1,
                        old(self)@.2,
                        old(self)@.3 as int,
                        old(self)@.0.len() as int,
                    )
                    &&& final(self)@.3 == old(self)@.3 + 1
                },
            },
    {
        let n = self.starts.len();
        let t = self.current_sample_index;
        let ghost starts = self.starts@;
        let ghost ends = self.ends@;
        let ghost dq = self.dequeue_first;
        // If there's nothing to queue or dequeue, we should just return nothing.
        if self.next_queue_index >= n && self.next_dequeue_index >= n {
            proof {
                if self.processed_through(t - 1) {
                    assert forall|g: int| 0 <= g < n implies #[trigger] starts[g] <= t && ends[g] < t by {
                        assert(self.start_order@.contains(g as usize));
                        let i = choose|i: int| 0 <= i < n && self.start_order@[i] == g as usize;
                        assert(self.end_order@.contains(g as usize));
                        let j = choose|j: int| 0 <= j < n && self.end_order@[j] == g as usize;
                        assert(self.starts@[self.start_order@[i] as int] <= t - 1);
                        assert(self.ends@[self.end_order@[j] as int] < t - 1);
                    }
                }
            }
            return None;
        }
        proof {
            if !self.processed_through(t - 1) {
                assert(self.processed_through(t as int) && all_done(starts, ends, t as int));
                if self.next_queue_index < n {
                    let g = self.start_order@[self.next_queue_index as int];
                    assert(g < n);
                    assert(starts[g as int] > t);
                    assert(starts[g as int] <= t);
                } else {
                    let g = self.end_order@[self.next_dequeue_index as int];
                    assert(g < n);
                    assert(ends[g as int] >= t);
                    assert(starts[g as int] <= t);
                    assert(ends[g as int] < t);
                }
            }
        }
        let ghost before = self.active@;
        if self.dequeue_first {
            self.dequeue_ended(t);
            let ghost mid = self.active@;
            self.queue_started(t);
            proof {
                assert forall|g: usize| g < n implies #[trigger] self.active@.contains(g) == is_playing(
                    starts[g as int],
                    ends[g as int],
                    dq,
                    t as int,
                ) by {
                    assert(mid.contains(g) == (before.contains(g) && ends[g as int] != t - 1));
                    assert(before.contains(g) == is_playing(starts[g as int], ends[g as int], dq, t - 1));
                }
            }
        } else {
            self.queue_started(t);
            let ghost mid = self.active@;
            self.dequeue_ended(t);
            proof {
                assert forall|g: usize| g < n implies #[trigger] self.active@.contains(g) == is_playing(
                    starts[g as int],
                    ends[g as int],
                    dq,
                    t as int,
                ) by {
                    assert(mid.contains(g) == (before.contains(g) || starts[g as int] == t));
                    assert(before.contains(g) == is_playing(starts[g as int], ends[g as int], dq, t - 1));
                }
            }
        }
        proof {
            assert(self.processed_through(t as int));
        }
        // If there's nothing to queue or dequeue, we should just return nothing.
        if self.next_queue_index >= n && self.next_dequeue_index >= n {
            proof {
                assert forall|g: int| 0 <= g < n implies #[trigger] starts[g] <= t && ends[g] < t by {
                    assert(self.start_order@.contains(g as usize));
                    let i = choose|i: int| 0 <= i < n && self.start_order@[i] == g as usize;
                    assert(self.end_order@.contains(g as usize));
                    let j = choose|j: int| 0 <= j < n && self.end_order@[j] == g as usize;
                    assert(self.starts@[self.start_order@[i] as int] <= t);
                    assert(self.ends@[self.end_order@[j] as int] < t);
                }
                assert(all_done(starts, ends, t as int));
                assert(self.orders_ok());
                assert(self.processed_through(t as int));
                assert(self.current_sample_index == t);
            }
            return None;
        }
        proof {
            assert(!all_done(starts, ends, t as int)) by {
                if self.next_queue_index < n {
                    let g = self.start_order@[self.next_queue_index as int];
                    assert(g < n);
                    assert(starts[g as int] > t);
                } else {
                    let g = self.end_order@[self.next_dequeue_index as int];
                    assert(g < n);
                    assert(ends[g as int] >= t);
                    if all_done(starts, ends, t as int) {
                        assert(starts[g as int] <= t);
                    }
                }
            }
            if t == u32::MAX {
                assert(false) by {
                    assert forall|g: int| 0 <= g < n implies #[trigger] starts[g] <= t && ends[g] < t by {
                        assert(ends == old(self)@.1);
                        assert(old(self)@.1[g] < u32::MAX);
                    }
                }
            }
        }
        self.current_sample_index = t + 1;
        let mut playing: Vec<usize> = Vec::new();
        let mut g: usize = 0;
        while g < n
            invariant
                g <= n,
                n == starts.len(),
                self.starts@ == starts,
                self.ends@ == ends,
                self.dequeue_first == dq,
                forall|h: usize| h < n ==> #[trigger] self.active@.contains(h) == is_playing(
                    starts[h as int],
                    ends[h as int],
                    dq,
                    t as int,
                ),
                playing@ == playing_indices(starts, ends, dq, t as int, g as int),
            decreases n - g,
        {
            broadcast use vstd::std_specs::hash::group_hash_axioms;

            if self.active.contains(&g) {
                playing.push(g);
            }
            g = g + 1;
        }
        Some(playing)
    }
}

/// The intervals, each once, in the order in which they first occur.
pub open spec fn distinct_intervals(s: Seq<SourceInterval>) -> Seq<SourceInterval>
    decreases s.len(),
{
    if s.len() == 0 {
        Seq::empty()
    } else if distinct_intervals(s.drop_last()).contains(s.last()) {
        distinct_intervals(s.drop_last())
    } else {
        distinct_intervals(s.drop_last()).push(s.last())
    }
}

/// The number of samples in the longest interval of `source`, or 0 where
/// it has none.
pub open spec fn longest(s: Seq<SourceInterval>, source: usize) -> int
    decreases s.len(),
{
    if s.len() == 0 {
        0
    } else {
        let rest = longest(s.drop_last(), source);
        let iv = s.last();
        if iv.source_id == source && iv.end_index - iv.start_index + 1 > rest {
            iv.end_index - iv.start_index + 1
        } else {
            rest
        }
    }
}

/// The largest source id, or 0 where there is no interval.
pub open spec fn max_source(s: Seq<SourceInterval>) -> usize
    decreases s.len(),
{
    if s.len() == 0 {
        0
    } else if s.len() == 1 || s.last().source_id > max_source(s.drop_last()) {
        s.last().source_id
    } else {
        max_source(s.drop_last())
    }
}

/// The ids below `n` of the sources whose buffer is not full yet, in
/// ascending order.
pub open spec fn unfilled_ids(limits: Seq<usize>, lens: Seq<usize>, n: int) -> Seq<usize>
    decreases n,
{
    if n <= 0 {
        Seq::empty()
    } else if lens[n - 1] < limits[n - 1] {
        unfilled_ids(limits, lens, n - 1).push((n - 1) as usize)
    } else {
        unfilled_ids(limits, lens, n - 1)
    }
}

/// The start index of each interval.
pub open spec fn starts_of(s: Seq<SourceInterval>) -> Seq<u32> {
    s.map_values(|iv: SourceInterval| iv.start_index)
}

/// The end index of each interval.
pub open spec fn ends_of(s: Seq<SourceInterval>) -> Seq<u32> {
    s.map_values(|iv: SourceInterval| iv.end_index)
}

/// For each interval in `playing`, the source to read and the position to
/// read in its buffer: the number of samples the interval has played before
/// sample index `t`.
pub open spec fn reads_at(intervals: Seq<SourceInterval>, playing: Seq<usize>, t: int) -> Seq<(usize, usize)> {
    playing.map_values(
        |i: usize| (intervals[i as int].source_id, (t - intervals[i as int].start_index) as usize),
    )
}

/// An interval runs forward and holds fewer than `u32::MAX + 1` samples.
pub open spec fn proper_interval(iv: SourceInterval) -> bool {
    iv.start_index <= iv.end_index && iv.end_index - iv.start_index < u32::MAX
}

/// The bookkeeping of a node that plays the samples of other nodes over
/// intervals of sample indices. The samples of each source are buffered from
/// the first sample index on, as many as its longest interval holds; an
/// interval plays its source's buffer from the start.
pub struct SequencePlanner {
    dependency_ids: Vec<usize>,
    intervals: Vec<SourceInterval>,
    tracker: IntervalTracker,
    buffer_limits: Vec<usize>,
    buffer_lens: Vec<usize>,
    calls: Ghost<nat>,
}

/// A planner as a mathematical value: its distinct intervals, the buffer
/// size of each source id, the samples buffered for each, the next sample
/// index, and the number of samples planned so far.
pub type PlannerView = (Seq<SourceInterval>, Seq<usize>, Seq<usize>, u32, nat);

impl View for SequencePlanner {
    type V = PlannerView;

    closed spec fn view(&self) -> PlannerView {
        (self.intervals@, self.buffer_limits@, self.buffer_lens@, self.tracker@.3, self.calls@)
    }
}

/// The playing indices are exactly the indices of the intervals playing,
/// each once, in ascending order.
pub proof fn lemma_playing_indices(starts: Seq<u32>, ends: Seq<u32>, dequeue_first: bool, t: int, n: int)
    requires
        0 <= n <= starts.len(),
        starts.len() <= usize::MAX,
        ends.len() == starts.len(),
    ensures
        forall|k: int|
            0 <= k < playing_indices(starts, ends, dequeue_first, t, n).len() ==> {
                let g = #[trigger] playing_indices(starts, ends, dequeue_first, t, n)[k];
                g < n && is_playing(starts[g as int], ends[g as int], dequeue_first, t)
            },
        forall|a: int, b: int|
            0 <= a < b < playing_indices(starts, ends, dequeue_first, t, n).len() ==> #[trigger] playing_indices(
                starts,
                ends,
                dequeue_first,
                t,
                n,
            )[a] < #[trigger] playing_indices(starts, ends, dequeue_first, t, n)[b],
        forall|g: int|
            0 <= g < n && is_playing(#[trigger] starts[g], ends[g], dequeue_first, t) ==> playing_indices(
                starts,
                ends,
                dequeue_first,
                t,
                n,
            ).contains(g as usize),
    decreases n,
{
    if n > 0 {
        lemma_playing_indices(starts, ends, dequeue_first, t, n - 1);
        let prev = playing_indices(starts, ends, dequeue_first, t, n - 1);
        let cur = playing_indices(starts, ends, dequeue_first, t, n);
        if is_playing(starts[n - 1], ends[n - 1], dequeue_first, t) {
            assert(cur == prev.push((n - 1) as usize));
            assert forall|k: int| 0 <= k < cur.len() implies #[trigger] cur[k] < n && is_playing(
                starts[cur[k] as int],
                ends[cur[k] as int],
                dequeue_first,
                t,
            ) by {
                if k < prev.len() {
                    assert(cur[k] == prev[k]);
                    let g = prev[k];
                    assert(g < n - 1);
                    assert(is_playing(starts[g as int], ends[g as int], dequeue_first, t));
                } else {
                    assert(k == prev.len());
                    assert(cur[k] == (n - 1) as usize);
                }
            }
            assert forall|a: int, b: int| 0 <= a < b < cur.len() implies #[trigger] cur[a] < #[trigger] cur[b] by {
                assert(cur[a] == prev[a]);
                assert(prev[a] < n - 1);
                if b < prev.len() {
                    assert(cur[b] == prev[b]);
                    assert(prev[a] < prev[b]);
                } else {
                    assert(cur[b] == (n - 1) as usize);
                }
            }
            assert forall|g: int| 0 <= g < n && is_playing(#[trigger] starts[g], ends[g], dequeue_first, t) implies cur.contains(
                g as usize,
            ) by {
                if g < n - 1 {
                    assert(prev.contains(g as usize));
                    let k = choose|k: int| 0 <= k < prev.len() && prev[k] == g as usize;
                    assert(cur[k] == g as usize);
                } else {
                    assert(cur[prev.len() as int] == g as usize);
                }
            }
        } else {
            assert(cur == prev);
            assert forall|g: int| 0 <= g < n && is_playing(#[trigger] starts[g], ends[g], dequeue_first, t) implies cur.contains(
                g as usize,
            ) by {
                if g < n - 1 {
                    assert(prev.contains(g as usize));
                }
            }
        }
    }
}

proof fn lemma_unfilled_ids(limits: Seq<usize>, lens: Seq<usize>, n: int)
    requires
        0 <= n <= limits.len(),
        limits.len() <= usize::MAX,
        lens.len() == limits.len(),
    ensures
        forall|k: int|
            0 <= k < unfilled_ids(limits, lens, n).len() ==> #[trigger] unfilled_ids(limits, lens, n)[k] < n,
        forall|x: int|
            0 <= x < n && #[trigger] lens[x] < limits[x] ==> unfilled_ids(limits, lens, n).contains(x as usize),
    decreases n,
{
    if n > 0 {
        lemma_unfilled_ids(limits, lens, n - 1);
        let prev = unfilled_ids(limits, lens, n - 1);
        let cur = unfilled_ids(limits, lens, n);
        assert forall|k: int| 0 <= k < cur.len() implies #[trigger] cur[k] < n by {
            if k < prev.len() {
                assert(cur[k] == prev[k]);
            }
        }
        assert forall|x: int| 0 <= x < n && #[trigger] lens[x] < limits[x] implies cur.contains(x as usize) by {
            if x < n - 1 {
                let k = choose|k: int| 0 <= k < prev.len() && prev[k] == x as usize;
                if lens[n - 1] < limits[n - 1] {
                    assert(cur[k] == prev[k]);
                }
            } else {
                assert(cur[prev.len() as int] == x as usize);
            }
        }
    }
}

/// How full the buffers are after `j` plans: each source's buffer holds one
/// sample per plan, up to its size.
pub open spec fn lens_after(limits: Seq<usize>, j: nat) -> Seq<usize> {
    Seq::new(limits.len(), |s: int| if j < limits[s] { j as usize } else { limits[s] })
}

proof fn lemma_longest(s: Seq<SourceInterval>, source: usize)
    requires
        forall|i: int| 0 <= i < s.len() ==> proper_interval(#[trigger] s[i]),
    ensures
        0 <= longest(s, source) <= u32::MAX,
        forall|i: int|
            0 <= i < s.len() && (#[trigger] s[i]).source_id == source ==> s[i].end_index - s[i].start_index + 1
                <= longest(s, source),
    decreases s.len(),
{
    if s.len() > 0 {
        let rest = s.drop_last();
        assert forall|i: int| 0 <= i < rest.len() implies proper_interval(#[trigger] rest[i]) by {
            assert(rest[i] == s[i]);
        }
        lemma_longest(rest, source);
        assert forall|i: int|
            0 <= i < s.len() && (#[trigger] s[i]).source_id == source implies s[i].end_index - s[i].start_index + 1
                <= longest(s, source) by {
            if i < s.len() - 1 {
                assert(rest[i] == s[i]);
            }
        }
    }
}

proof fn lemma_max_source(s: Seq<SourceInterval>)
    ensures
        forall|i: int| 0 <= i < s.len() ==> (#[trigger] s[i]).source_id <= max_source(s),
        s.len() > 0 ==> exists|i: int| 0 <= i < s.len() && (#[trigger] s[i]).source_id == max_source(s),
    decreases s.len(),
{
    if s.len() > 0 {
        let rest = s.drop_last();
        lemma_max_source(rest);
        if s.len() == 1 || s.last().source_id > max_source(rest) {
            assert(s[s.len() - 1].source_id == max_source(s));
        } else {
            let i = choose|i: int| 0 <= i < rest.len() && (#[trigger] rest[i]).source_id == max_source(rest);
            assert(s[i] == rest[i]);
        }
        assert forall|i: int| 0 <= i < s.len() implies (#[trigger] s[i]).source_id <= max_source(s) by {
            if i < s.len() - 1 {
                assert(rest[i] == s[i]);
            }
        }
    }
}

proof fn lemma_distinct_intervals(s: Seq<SourceInterval>)
    ensures
        forall|i: int| 0 <= i < distinct_intervals(s).len() ==> s.contains(#[trigger] distinct_intervals(s)[i]),
        forall|i: int| 0 <= i < s.len() ==> distinct_intervals(s).contains(#[trigger] s[i]),
    decreases s.len(),
{
    if s.len() > 0 {
        let rest = s.drop_last();
        lemma_distinct_intervals(rest);
        let d = distinct_intervals(s);
        let dr = distinct_intervals(rest);
        assert forall|i: int| 0 <= i < d.len() implies s.contains(#[trigger] d[i]) by {
            if i < dr.len() {
                assert(d[i] == dr[i]);
                let j = choose|j: int| 0 <= j < rest.len() && rest[j] == dr[i];
                assert(s[j] == d[i]);
            } else {
                assert(d[i] == s.last());
                assert(s[s.len() - 1] == d[i]);
            }
        }
        assert forall|i: int| 0 <= i < s.len() implies d.contains(#[trigger] s[i]) by {
            if i < s.len() - 1 {
                assert(rest[i] == s[i]);
                assert(dr.contains(s[i]));
                let j = choose|j: int| 0 <= j < dr.len() && dr[j] == s[i];
                assert(d[j] == s[i]);
            } else if !dr.contains(s.last()) {
                assert(d[dr.len() as int] == s[i]);
            }
        }
    }
}

impl SequencePlanner {
    /// Every interval is proper and its source has a buffer at least as long
    /// as it; each buffer holds one sample for each plan so far, up to its
    /// size; and until the stream ends the next sample index is the number
    /// of plans so far.
    pub closed spec fn wf(&self) -> bool {
        let ivs = self.intervals@;
        let limits = self.buffer_limits@;
        let lens = self.buffer_lens@;
        let t = self.tracker@.3;
        let calls = self.calls@;
        &&& self.tracker.wf()
        &&& self.tracker@.0 == starts_of(ivs)
        &&& self.tracker@.1 == ends_of(ivs)
        &&& self.tracker@.2
        &&& lens.len() == limits.len()
        &&& forall|i: int|
            0 <= i < ivs.len() ==> {
                &&& proper_interval(#[trigger] ivs[i])
                &&& ivs[i].source_id < limits.len()
                &&& ivs[i].end_index - ivs[i].start_index + 1 <= limits[ivs[i].source_id as int]
            }
        &&& forall|s: int|
            0 <= s < limits.len() ==> {
                &&& #[trigger] lens[s] <= limits[s]
                &&& limits[s] <= u32::MAX
                &&& lens[s] == if calls < limits[s] { calls } else { limits[s] as nat }
            }
        &&& t == calls || all_done(starts_of(ivs), ends_of(ivs), t as int)
    }

    /// After `k` plans each buffer holds `min(k, size)` samples, and the
    /// stream is at sample index `k` unless it has ended. With `poll_plan`,
    /// which buffers each sample at the position equal to the number of
    /// earlier plans and reads, on the plan at sample index `k`, position
    /// `k - start` of a playing interval's source: every read of the `k`-th
    /// plan returns the sample its source gave on plan `k - start`, an
    /// interval replaying its source from the source's first sample.
    pub proof fn lemma_buffers_follow_plans(&self)
        requires
            self.wf(),
        ensures
            self@.2.len() == self@.1.len(),
            forall|s: int|
                0 <= s < self@.1.len() ==> #[trigger] self@.2[s] == if self@.4 < self@.1[s] {
                    self@.4
                } else {
                    self@.1[s] as nat
                },
            self@.3 == self@.4 || all_done(starts_of(self@.0), ends_of(self@.0), self@.3 as int),
    {
    }

    /// A read gives back what an earlier plan buffered. While the stream has
    /// not ended, the plan at sample index `k` is the plan numbered `k`, and
    /// each of its reads `(s, p)` (with `p = k - start` for its interval) has
    /// `p <= k`; the plan numbered `p` found buffer `s` holding `p` samples,
    /// short of its size, so it listed `s` among the buffers that take their
    /// source's sample, at position `p`. Every read thus returns the sample
    /// its source gave on plan `p`.
    pub proof fn lemma_read_returns_buffered_sample(&self)
        requires
            self.wf(),
            !all_done(starts_of(self@.0), ends_of(self@.0), self@.3 as int),
        ensures
            self@.3 == self@.4,
            forall|r: int|
                0 <= r < reads_at(
                    self@.0,
                    playing_indices(starts_of(self@.0), ends_of(self@.0), true, self@.3 as int, self@.0.len() as int),
                    self@.3 as int,
                ).len() ==> {
                    let read = #[trigger] reads_at(
                        self@.0,
                        playing_indices(starts_of(self@.0), ends_of(self@.0), true, self@.3 as int, self@.0.len() as int),
                        self@.3 as int,
                    )[r];
                    &&& read.1 <= self@.4
                    &&& read.0 < self@.1.len()
                    &&& lens_after(self@.1, read.1 as nat)[read.0 as int] == read.1
                    &&& unfilled_ids(self@.1, lens_after(self@.1, read.1 as nat), self@.1.len() as int).contains(read.0)
                },
    {
        let ivs = self@.0;
        let limits = self@.1;
        let t = self@.3;
        let starts = starts_of(ivs);
        let ends = ends_of(ivs);
        let playing = playing_indices(starts, ends, true, t as int, ivs.len() as int);
        let reads = reads_at(ivs, playing, t as int);
        assert(ivs.len() == self.intervals.len() && limits.len() == self.buffer_limits.len());
        lemma_playing_indices(starts, ends, true, t as int, ivs.len() as int);
        assert forall|r: int| 0 <= r < reads.len() implies {
            let read = #[trigger] reads[r];
            &&& read.1 <= self@.4
            &&& read.0 < limits.len()
            &&& lens_after(limits, read.1 as nat)[read.0 as int] == read.1
            &&& unfilled_ids(limits, lens_after(limits, read.1 as nat), limits.len() as int).contains(read.0)
        } by {
            let i = playing[r] as int;
            assert(is_playing(starts[i], ends[i], true, t as int));
            assert(proper_interval(ivs[i]));
            let src = ivs[i].source_id;
            let p = (t - ivs[i].start_index) as usize;
            assert(reads[r] == (src, p));
            assert(p < limits[src as int]);
            let lens = lens_after(limits, p as nat);
            assert(lens[src as int] == p);
            lemma_unfilled_ids(limits, lens, limits.len() as int);
        }
    }

    /// The ids of the sources, one for each interval, in order.
    pub closed spec fn dependencies(&self) -> Seq<usize> {
        self.dependency_ids@
    }

    /// The bookkeeping for `source_intervals`: each source gets a buffer as
    /// long as its longest interval, and nothing is buffered or played yet.
    pub fn new(source_intervals: Vec<SourceInterval>) -> (planner: Self)
        requires
            source_intervals@.len() > 0,
            forall|i: int| 0 <= i < source_intervals@.len() ==> proper_interval(#[trigger] source_intervals@[i]),
            forall|i: int| 0 <= i < source_intervals@.len() ==> (#[trigger] source_intervals@[i]).source_id < usize::MAX,
        ensures
            planner.wf(),
            planner.dependencies() == source_intervals@.map_values(|iv: SourceInterval| iv.source_id),
            planner@.0 == distinct_intervals(source_intervals@),
            planner@.1.len() == max_source(source_intervals@) + 1,
            forall|s: int| 0 <= s < planner@.1.len() ==> #[trigger] planner@.1[s] == longest(source_intervals@, s as usize),
            planner@.2.len() == planner@.1.len(),
            forall|s: int| 0 <= s < planner@.2.len() ==> #[trigger] planner@.2[s] == 0,
            planner@.3 == 0,
            planner@.4 == 0,
    {
        let ghost ivs = source_intervals@;
        let n = source_intervals.len();
        let mut dependency_ids: Vec<usize> = Vec::new();
        let mut max_id: usize = source_intervals[0].source_id;
        let mut i: usize = 0;
        while i < n
            invariant
                ivs == source_intervals@,
                n == ivs.len(),
                n > 0,
                i <= n,
                dependency_ids@ == ivs.take(i as int).map_values(|iv: SourceInterval| iv.source_id),
                i == 0 ==> max_id == ivs[0].source_id,
                i > 0 ==> max_id == max_source(ivs.take(i as int)),
            decreases n - i,
        {
            let source = source_intervals[i].source_id;
            dependency_ids.push(source);
            proof {
                assert(ivs.take(i + 1).drop_last() =~= ivs.take(i as int));
                assert(dependency_ids@ =~= ivs.take(i + 1).map_values(|iv: SourceInterval| iv.source_id));
            }
            if i > 0 && source > max_id {
                max_id = source;
            }
            i = i + 1;
        }
        proof {
            assert(ivs.take(n as int) =~= ivs);
            lemma_max_source(ivs);
            let j = choose|j: int| 0 <= j < ivs.len() && (#[trigger] ivs[j]).source_id == max_source(ivs);
            assert(ivs[j].source_id < usize::MAX);
        }
        let max_sources = max_id + 1;
        // We only need to store enough samples for the longest interval for each source
        let mut limits: Vec<usize> = Vec::new();
        let mut lens: Vec<usize> = Vec::new();
        let mut s: usize = 0;
        while s < max_sources
            invariant
                s <= max_sources,
                limits@.len() == s,
                lens@.len() == s,
                forall|j: int| 0 <= j < s ==> #[trigger] limits@[j] == 0,
                forall|j: int| 0 <= j < s ==> #[trigger] lens@[j] == 0,
            decreases max_sources - s,
        {
            limits.push(0);
            lens.push(0);
            s = s + 1;
        }
        let mut i: usize = 0;
        while i < n
            invariant
                ivs == source_intervals@,
                n == ivs.len(),
                i <= n,
                forall|j: int| 0 <= j < n ==> proper_interval(#[trigger] ivs[j]),
                forall|j: int| 0 <= j < n ==> (#[trigger] ivs[j]).source_id <= max_id,
                max_sources == max_id + 1,
                limits@.len() == max_sources,
                forall|j: int| 0 <= j < max_sources ==> #[trigger] limits@[j] == longest(ivs.take(i as int), j as usize),
                lens@.len() == max_sources,
                forall|j: int| 0 <= j < max_sources ==> #[trigger] lens@[j] == 0,
            decreases n - i,
        {
            let interval = source_intervals[i];
            let length = (interval.end_index - interval.start_index + 1) as usize;
            let source = interval.source_id;
            if length > limits[source] {
                limits.set(source, length);
            }
            proof {
                assert(ivs.take(i + 1).drop_last() =~= ivs.take(i as int));
                assert(ivs.take(i + 1).last() == interval);
                assert forall|j: int| 0 <= j < max_sources implies #[trigger] limits@[j] == longest(
                    ivs.take(i + 1),
                    j as usize,
                ) by {}
            }
            i = i + 1;
        }
        proof {
            assert(ivs.take(n as int) =~= ivs);
        }
        let mut intervals: Vec<SourceInterval> = Vec::new();
        let mut starts: Vec<u32> = Vec::new();
        let mut ends: Vec<u32> = Vec::new();
        let mut i: usize = 0;
        while i < n
            invariant
                ivs == source_intervals@,
                n == ivs.len(),
                i <= n,
                intervals@ == distinct_intervals(ivs.take(i as int)),
                starts@ == starts_of(intervals@),
                ends@ == ends_of(intervals@),
                max_sources == max_id + 1,
                limits@.len() == max_sources,
                forall|j: int| 0 <= j < max_sources ==> #[trigger] limits@[j] == longest(ivs, j as usize),
                lens@.len() == max_sources,
                forall|j: int| 0 <= j < max_sources ==> #[trigger] lens@[j] == 0,
                dependency_ids@ == ivs.map_values(|iv: SourceInterval| iv.source_id),
                forall|j: int| 0 <= j < n ==> (#[trigger] ivs[j]).source_id <= max_id,
                forall|j: int| 0 <= j < n ==> proper_interval(#[trigger] ivs[j]),
            decreases n - i,
        {
            let interval = source_intervals[i];
            let mut found = false;
            let mut k: usize = 0;
            while k < intervals.len()
                invariant
                    k <= intervals@.len(),
                    found == intervals@.take(k as int).contains(interval),
                decreases intervals@.len() - k,
            {
                if intervals[k] == interval {
                    found = true;
                }
                proof {
                    let pre = intervals@.take(k as int);
                    let cur = intervals@.take(k + 1);
                    assert(cur.drop_last() =~= pre);
                    if pre.contains(interval) {
                        let j = choose|j: int| 0 <= j < pre.len() && pre[j] == interval;
                        assert(cur[j] == interval);
                    }
                    if intervals@[k as int] == interval {
                        assert(cur[k as int] == interval);
                    }
                    if cur.contains(interval) {
                        let j = choose|j: int| 0 <= j < cur.len() && cur[j] == interval;
                        if j < k {
                            assert(pre[j] == interval);
                        }
                    }
                }
                k = k + 1;
            }
            proof {
                assert(intervals@.take(intervals@.len() as int) =~= intervals@);
                assert(ivs.take(i + 1).drop_last() =~= ivs.take(i as int));
                assert(ivs.take(i + 1).last() == interval);
            }
            if !found {
                intervals.push(interval);
                starts.push(interval.start_index);
                ends.push(interval.end_index);
                proof {
                    assert(starts@ =~= starts_of(intervals@));
                    assert(ends@ =~= ends_of(intervals@));
                }
            }
            i = i + 1;
        }
        proof {
            assert(ivs.take(n as int) =~= ivs);
        }
        let tracker = IntervalTracker::new(starts, ends, true);
        let planner = SequencePlanner {
            dependency_ids,
            intervals,
            tracker,
            buffer_limits: limits,
            buffer_lens: lens,
            calls: Ghost(0),
        };
        proof {
            lemma_distinct_intervals(ivs);
            lemma_max_source(ivs);
            let d = planner.intervals@;
            assert forall|k: int| 0 <= k < d.len() implies {
                &&& proper_interval(#[trigger] d[k])
                &&& d[k].source_id < planner.buffer_limits@.len()
                &&& d[k].end_index - d[k].start_index + 1 <= planner.buffer_limits@[d[k].source_id as int]
            } by {
                assert(ivs.contains(d[k]));
                let j = choose|j: int| 0 <= j < ivs.len() && ivs[j] == d[k];
                lemma_longest(ivs, d[k].source_id);
            }
            assert forall|s: int| 0 <= s < planner.buffer_limits@.len() implies {
                &&& #[trigger] planner.buffer_lens@[s] <= planner.buffer_limits@[s]
                &&& planner.buffer_limits@[s] <= u32::MAX
                &&& planner.buffer_lens@[s] == if 0 < planner.buffer_limits@[s] { 0 } else {
                    planner.buffer_limits@[s] as nat
                }
            } by {
                lemma_longest(ivs, s as usize);
            }
            assert(planner.tracker.wf());
            assert(planner.tracker@.0 == starts_of(d));
            assert(planner.tracker@.1 == ends_of(d));
            assert(planner.tracker@.2);
            assert(planner.buffer_lens@.len() == planner.buffer_limits@.len());
            assert(planner.tracker@.3 == 0 && planner.calls@ == 0);
            assert(planner.tracker@.3 == planner.calls@);
            assert(planner.wf());
        }
        planner
    }

    /// The ids of the sources, one for each interval, in order.
    pub fn dependency_ids(&self) -> (ids: &Vec<usize>)
        ensures
            ids@ == self.dependencies(),
    {
        &self.dependency_ids
    }

    /// The next sample index.
    pub fn current_sample_index(&self) -> (t: u32)
        ensures
            t == self@.3,
    {
        self.tracker.current_sample_index()
    }

    /// The buffer size of each source id: the number of samples in its
    /// longest interval.
    pub fn buffer_limits(&self) -> (limits: &Vec<usize>)
        ensures
            limits@ == self@.1,
    {
        &self.buffer_limits
    }

    /// Plans the next sample: first the ids of the sources whose buffers
    /// take that sample of theirs, in ascending order; then, as the
    /// intervals due there start and stop, where to read the samples to
    /// add up: for each interval playing, in the order of the intervals,
    /// its source and the number of samples it has played. Once every
    /// interval has played there is nothing left: `None`, at the same
    /// sample index.
    pub fn poll_plan(&mut self) -> (plan: (Vec<usize>, Option<Vec<(usize, usize)>>))
        requires
            old(self).wf(),
            old(self)@.3 < u32::MAX || forall|i: int|
                0 <= i < old(self)@.0.len() ==> (#[trigger] old(self)@.0[i]).end_index < u32::MAX,
        ensures
            final(self).wf(),
            final(self)@.0 == old(self)@.0,
            final(self)@.1 == old(self)@.1,
            final(self)@.4 == old(self)@.4 + 1,
            forall|s: int|
                0 <= s < old(self)@.2.len() && #[trigger] old(self)@.2[s] < old(self)@.1[s] ==> old(self)@.2[s]
                    == old(self)@.4,
            plan.0@ == unfilled_ids(old(self)@.1, old(self)@.2, old(self)@.1.len() as int),
            forall|k: int| 0 <= k < plan.0@.len() ==> #[trigger] plan.0@[k] < old(self)@.1.len(),
            final(self)@.2.len() == old(self)@.2.len(),
            forall|s: int|
                0 <= s < old(self)@.2.len() ==> #[trigger] final(self)@.2[s] == old(self)@.2[s] + if old(
                    self,
                )@.2[s] < old(self)@.1[s] {
                    1int
                } else {
                    0int
                },
            match plan.1 {
                None => {
                    &&& all_done(starts_of(old(self)@.0), ends_of(old(self)@.0), old(self)@.3 as int)
                    &&& final(self)@.3 == old(self)@.3
                },
                Some(reads) => {
                    &&& !all_done(starts_of(old(self)@.0), ends_of(old(self)@.0), old(self)@.3 as int)
                    &&& reads@ == reads_at(
                        old(self)@.0,
                        playing_indices(
                            starts_of(old(self)@.0),
                            ends_of(old(self)@.0),
                            true,
                            old(self)@.3 as int,
                            old(self)@.0.len() as int,
                        ),
                        old(self)@.3 as int,
                    )
                    &&& final(self)@.3 == old(self)@.3 + 1
                    &&& old(self)@.3 == old(self)@.4
                    &&& forall|k: int|
                        0 <= k < reads@.len() ==> (#[trigger] reads@[k]).0 < final(self)@.2.len()
                            && reads@[k].1 < final(self)@.2[reads@[k].0 as int]
                },
            },
    {
        let ghost old_lens = self.buffer_lens@;
        let ghost limits = self.buffer_limits@;
        let ghost ivs = self.intervals@;
        let t = self.tracker.current_sample_index();
        // Dependency nodes don't wait until it's their turn to produce samples,
        // so we need to capture their output and use it later.
        let mut fills: Vec<usize> = Vec::new();
        let n = self.buffer_limits.len();
        proof {
            assert forall|j: int| 0 <= j < n implies #[trigger] old_lens[j] <= limits[j] && limits[j] <= u32::MAX by {
                assert(self.buffer_lens@[j] <= self.buffer_limits@[j]);
            }
        }
        let ghost calls = self.calls@;
        let mut s: usize = 0;
        while s < n
            invariant
                n == limits.len(),
                self.calls@ == calls,
                self.buffer_limits@ == limits,
                self.intervals@ == ivs,
                self.tracker@ == old(self).tracker@,
                self.tracker.wf(),
                old_lens.len() == n,
                self.buffer_lens@.len() == n,
                s <= n,
                forall|j: int| 0 <= j < n ==> #[trigger] old_lens[j] <= limits[j] && limits[j] <= u32::MAX,
                forall|j: int|
                    0 <= j < n ==> #[trigger] self.buffer_lens@[j] == if j < s && old_lens[j] < limits[j] {
                        old_lens[j] + 1
                    } else {
                        old_lens[j] as int
                    },
                fills@ == unfilled_ids(limits, old_lens, s as int),
            decreases n - s,
        {
            if self.buffer_lens[s] < self.buffer_limits[s] {
                fills.push(s);
                let len = self.buffer_lens[s] + 1;
                self.buffer_lens.set(s, len);
            }
            s = s + 1;
        }
        self.calls = Ghost(calls + 1);
        proof {
            assert forall|j: int| 0 <= j < n implies {
                &&& #[trigger] self.buffer_lens@[j] <= limits[j]
                &&& limits[j] <= u32::MAX
                &&& self.buffer_lens@[j] == if calls + 1 < limits[j] { (calls + 1) as nat } else {
                    limits[j] as nat
                }
            } by {
                assert(old(self).buffer_lens@[j] <= old(self).buffer_limits@[j]);
            }
            assert forall|j: int| 0 <= j < n && #[trigger] old_lens[j] < limits[j] implies old_lens[j] == calls by {
                assert(old(self).buffer_lens@[j] <= old(self).buffer_limits@[j]);
            }
        }
        let m = self.intervals.len();
        proof {
            lemma_unfilled_ids(limits, old_lens, n as int);
            assert(self.tracker@.3 == t);
            if t == u32::MAX {
                assert forall|g: int| 0 <= g < self.tracker@.1.len() implies #[trigger] self.tracker@.1[g] < u32::MAX by {
                    assert(old(self)@.0 == ivs && old(self)@.3 == t);
                    assert(old(self)@.0[g].end_index < u32::MAX);
                }
            }
        }
        let playing = self.tracker.poll();
        let indices = match playing {
            Some(indices) => indices,
            None => {
                return (fills, None);
            },
        };
        let ghost pl = playing_indices(starts_of(ivs), ends_of(ivs), true, t as int, ivs.len() as int);
        proof {
            lemma_playing_indices(starts_of(ivs), ends_of(ivs), true, t as int, ivs.len() as int);
        }
        let mut reads: Vec<(usize, usize)> = Vec::new();
        let mut k: usize = 0;
        while k < indices.len()
            invariant
                indices@ == pl,
                self.intervals@ == ivs,
                k <= pl.len(),
                ivs.len() == starts_of(ivs).len(),
                forall|a: int|
                    0 <= a < pl.len() ==> {
                        let g = #[trigger] pl[a];
                        g < ivs.len() && is_playing(starts_of(ivs)[g as int], ends_of(ivs)[g as int], true, t as int)
                    },
                reads@ == reads_at(ivs, pl.take(k as int), t as int),
            decreases pl.len() - k,
        {
            let g = indices[k];
            let interval = self.intervals[g];
            proof {
                assert(starts_of(ivs)[g as int] == interval.start_index);
            }
            reads.push((interval.source_id, (t - interval.start_index) as usize));
            proof {
                assert(pl.take(k + 1) =~= pl.take(k as int).push(g));
                assert(reads@ =~= reads_at(ivs, pl.take(k + 1), t as int));
            }
            k = k + 1;
        }
        proof {
            assert(pl.take(pl.len() as int) =~= pl);
            let lens = self.buffer_lens@;
            assert forall|a: int| 0 <= a < reads@.len() implies (#[trigger] reads@[a]).0 < lens.len()
                && reads@[a].1 < lens[reads@[a].0 as int] by {
                let g = pl[a];
                let iv = ivs[g as int];
                assert(reads@[a] == (iv.source_id, (t - iv.start_index) as usize));
                assert(starts_of(ivs)[g as int] == iv.start_index);
                assert(ends_of(ivs)[g as int] == iv.end_index);
                assert(proper_interval(iv));
                let src = iv.source_id as int;
                assert(old_lens[src] <= limits[src]);
            }
            assert(t == calls);
        }
        (fills, Some(reads))
    }
}

/// The first sample index at which every interval has started and stopped:
/// past the latest start and the latest end.
pub open spec fn stream_end(starts: Seq<u32>, ends: Seq<u32>) -> int
    decreases starts.len(),
{
    if starts.len() == 0 {
        0
    } else {
        let rest = stream_end(starts.drop_last(), ends.drop_last());
        let last = if starts.last() > ends.last() + 1 {
            starts.last() as int
        } else {
            ends.last() + 1
        };
        if rest > last {
            rest
        } else {
            last
        }
    }
}

/// Every interval has started and stopped at sample index `t` exactly when
/// `t` has reached the end of the stream: a tracker plays one sample for
/// each index before the end, then nothing.
pub proof fn lemma_stream_end(starts: Seq<u32>, ends: Seq<u32>, t: int)
    requires
        starts.len() == ends.len(),
        t >= 0,
    ensures
        all_done(starts, ends, t) <==> t >= stream_end(starts, ends),
    decreases starts.len(),
{
    if starts.len() > 0 {
        let n = starts.len() - 1;
        let (s0, e0) = (starts.drop_last(), ends.drop_last());
        lemma_stream_end(s0, e0, t);
        if all_done(starts, ends, t) {
            assert(all_done(s0, e0, t)) by {
                assert forall|g: int| 0 <= g < s0.len() implies #[trigger] s0[g] <= t && e0[g] < t by {
                    assert(s0[g] == starts[g] && e0[g] == ends[g]);
                }
            }
            let (x, y) = (starts[n], ends[n]);
            assert(x <= t);
            assert(y < t);
            assert(starts.last() == x && ends.last() == y);
        }
        if t >= stream_end(starts, ends) {
            assert(t >= stream_end(s0, e0));
            assert(all_done(s0, e0, t));
            assert forall|g: int| 0 <= g < starts.len() implies #[trigger] starts[g] <= t && ends[g] < t by {
                if g < n {
                    let (x, y) = (s0[g], e0[g]);
                    assert(x <= t && y < t);
                    assert(x == starts[g] && y == ends[g]);
                } else {
                    assert(starts.last() == starts[g] && ends.last() == ends[g]);
                }
            }
        }
    }
}

/// Once every interval has started and stopped, that stays so at every
/// later sample index: after a tracker gives `None` it gives `None` again.
pub proof fn lemma_done_stays_done(starts: Seq<u32>, ends: Seq<u32>, t: int, later: int)
    requires
        starts.len() == ends.len(),
        all_done(starts, ends, t),
        t <= later,
    ensures
        all_done(starts, ends, later),
{
    assert forall|g: int| 0 <= g < starts.len() implies (#[trigger] starts[g]) <= later && ends[g] < later by {
        let x = starts[g];
        assert(x <= t);
        assert(ends[g] < t);
    }
    assert(all_done(starts, ends, later));
}

/// An interval whose start does not come after its end plays exactly from
/// its start index to its end index, both included, whichever of a start
/// and a stop on one sample index is processed first.
pub proof fn lemma_proper_interval_plays_its_span(start: u32, end: u32, dequeue_first: bool, t: int)
    requires
        start <= end,
    ensures
        is_playing(start, end, dequeue_first, t) <==> start <= t <= end,
{
}

} // verus!
