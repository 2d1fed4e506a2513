//! Picking the samples of one channel out of interleaved audio.
use vstd::prelude::*;

verus! {

/// The readable samples among the first `n` that belong to the first
/// channel: those at positions that are multiples of `num_channels`, in
/// order. A sample that could not be read is skipped.
pub open spec fn first_channel_of<T>(samples: Seq<Option<T>>, num_channels: nat, n: int) -> Seq<T>
    decreases n,
{
    if n <= 0 {
        Seq::empty()
    } else {
        let rest = first_channel_of(samples, num_channels, n - 1);
        if (n - 1) % (num_channels as int) == 0 && samples[n - 1] is Some {
            rest.push(samples[n - 1]->0)
        } else {
            rest
        }
    }
}

/// `channel` is read off `samples[..n]` at the positions `pos`: in
/// ascending order, each a multiple of `num_channels` holding a readable
/// sample, which is the one `channel` has there; and every readable sample
/// at a multiple of `num_channels` below `n` is among them.
pub open spec fn read_at_positions<T>(
    samples: Seq<Option<T>>,
    num_channels: nat,
    n: int,
    channel: Seq<T>,
    pos: Seq<int>,
) -> bool {
    &&& pos.len() == channel.len()
    &&& forall|i: int|
        0 <= i < pos.len() ==> 0 <= #[trigger] pos[i] < n && pos[i] % (num_channels as int) == 0
            && samples[pos[i]] == Some(channel[i])
    &&& forall|i: int, j: int| 0 <= i < j < pos.len() ==> #[trigger] pos[i] < #[trigger] pos[j]
    &&& forall|p: int|
        0 <= p < n && p % (num_channels as int) == 0 && #[trigger] samples[p] is Some ==> pos.contains(p)
}

/// The first channel is exactly the readable samples at the positions that
/// are multiples of the channel count, in order: with one channel, every
/// readable sample.
pub proof fn lemma_first_channel_positions<T>(samples: Seq<Option<T>>, num_channels: nat, n: int)
    requires
        num_channels > 0,
        0 <= n <= samples.len(),
    ensures
        exists|pos: Seq<int>|
            #[trigger] read_at_positions(samples, num_channels, n, first_channel_of(samples, num_channels, n), pos),
    decreases n,
{
    let c = first_channel_of(samples, num_channels, n);
    if n == 0 {
        assert(read_at_positions(samples, num_channels, n, c, Seq::<int>::empty()));
    } else {
        lemma_first_channel_positions(samples, num_channels, n - 1);
        let rest = first_channel_of(samples, num_channels, n - 1);
        let pos = choose|pos: Seq<int>| #[trigger] read_at_positions(samples, num_channels, n - 1, rest, pos);
        if samples[n - 1] is Some && (n - 1) % (num_channels as int) == 0 {
            let pos2 = pos.push(n - 1);
            assert(c == rest.push(samples[n - 1]->0));
            assert forall|i: int| 0 <= i < pos2.len() implies 0 <= #[trigger] pos2[i] < n && pos2[i] % (
            num_channels as int) == 0 && samples[pos2[i]] == Some(c[i]) by {
                if i < pos.len() {
                    assert(pos2[i] == pos[i]);
                    assert(c[i] == rest[i]);
                }
            }
            assert forall|i: int, j: int| 0 <= i < j < pos2.len() implies #[trigger] pos2[i] < #[trigger] pos2[j] by {
                assert(pos2[i] == pos[i]);
                if j < pos.len() {
                    assert(pos2[j] == pos[j]);
                }
            }
            assert forall|p: int|
                0 <= p < n && p % (num_channels as int) == 0 && #[trigger] samples[p] is Some implies pos2.contains(p) by {
                if p < n - 1 {
                    let i = choose|i: int| 0 <= i < pos.len() && pos[i] == p;
                    assert(pos2[i] == p);
                } else {
                    assert(pos2[pos.len() as int] == p);
                }
            }
            assert(read_at_positions(samples, num_channels, n, c, pos2));
        } else {
            assert(c == rest);
            assert forall|p: int|
                0 <= p < n && p % (num_channels as int) == 0 && #[trigger] samples[p] is Some implies pos.contains(p) by {
                if p < n - 1 {
                } else {
                    assert(p == n - 1);
                }
            }
            assert(read_at_positions(samples, num_channels, n, c, pos));
        }
    }
}

/// Where every sample is readable, the first channel holds one sample per
/// `num_channels` samples, rounded up, and its `i`-th sample is the one at
/// position `i * num_channels`: with one channel, all of them in order.
pub proof fn lemma_first_channel_all_readable<T>(samples: Seq<Option<T>>, num_channels: nat, n: int)
    requires
        num_channels > 0,
        0 <= n <= samples.len(),
        forall|i: int| 0 <= i < n ==> #[trigger] samples[i] is Some,
    ensures
        first_channel_of(samples, num_channels, n).len() * num_channels >= n,
        n > 0 ==> (first_channel_of(samples, num_channels, n).len() - 1) * num_channels < n,
        forall|i: int|
            0 <= i < first_channel_of(samples, num_channels, n).len() ==> #[trigger] first_channel_of(
                samples,
                num_channels,
                n,
            )[i] == samples[i * num_channels]->0,
    decreases n,
{
    if n > 0 {
        lemma_first_channel_all_readable(samples, num_channels, n - 1);
        let l = first_channel_of(samples, num_channels, n - 1).len() as int;
        let nc = num_channels as int;
        let m = n - 1;
        assert(samples[m] is Some);
        if m % nc == 0 {
            assert(first_channel_of(samples, num_channels, n) == first_channel_of(samples, num_channels, n - 1).push(
                samples[m]->0,
            ));
            assert(l * nc == m) by {
                let q = m / nc;
                vstd::arithmetic::div_mod::lemma_fundamental_div_mod(m, nc);
                vstd::arithmetic::mul::lemma_mul_is_commutative(nc, q);
                if m == 0 {
                    assert(l == 0);
                } else if q < l {
                    vstd::arithmetic::mul::lemma_mul_inequality(q, l - 1, nc);
                } else if q > l {
                    vstd::arithmetic::mul::lemma_mul_inequality(l + 1, q, nc);
                    vstd::arithmetic::mul::lemma_mul_is_distributive_add_other_way(nc, l, 1);
                }
            }
            assert((l + 1) * nc >= n) by (nonlinear_arith)
                requires
                    l * nc == m,
                    n == m + 1,
                    nc > 0,
            ;
            assert forall|i: int|
                0 <= i < first_channel_of(samples, num_channels, n).len() implies #[trigger] first_channel_of(
                samples,
                num_channels,
                n,
            )[i] == samples[i * num_channels]->0 by {
                if i < l {
                    assert(first_channel_of(samples, num_channels, n)[i] == first_channel_of(samples, num_channels, n - 1)[i]);
                } else {
                    assert(i == l);
                    assert(i * num_channels == m);
                }
            }
        } else {
            assert(first_channel_of(samples, num_channels, n) == first_channel_of(samples, num_channels, n - 1));
            assert(l * nc != m) by {
                vstd::arithmetic::div_mod::lemma_mod_multiples_basic(l, nc);
            }
            if m == 0 {
                vstd::arithmetic::div_mod::lemma_small_mod(0, num_channels);
            }
            assert forall|i: int|
                0 <= i < first_channel_of(samples, num_channels, n).len() implies #[trigger] first_channel_of(
                samples,
                num_channels,
                n,
            )[i] == samples[i * num_channels]->0 by {
                assert(first_channel_of(samples, num_channels, n)[i] == first_channel_of(samples, num_channels, n - 1)[i]);
            }
        }
    } else {
        assert(first_channel_of(samples, num_channels, n) =~= Seq::<T>::empty());
    }
}

/// The samples of the first channel of interleaved audio with
/// `num_channels` channels, skipping those that could not be read.
pub fn first_channel<T>(samples: Vec<Option<T>>, num_channels: u16) -> (channel: Vec<T>)
    requires
        num_channels > 0 || samples@.len() == 0,
    ensures
        channel@ == first_channel_of(samples@, num_channels as nat, samples@.len() as int),
        num_channels > 0 ==> exists|pos: Seq<int>|
            #[trigger] read_at_positions(samples@, num_channels as nat, samples@.len() as int, channel@, pos),
        num_channels > 0 && (forall|i: int| 0 <= i < samples@.len() ==> #[trigger] samples@[i] is Some) ==> {
            &&& channel@.len() * num_channels >= samples@.len()
            &&& samples@.len() > 0 ==> (channel@.len() - 1) * num_channels < samples@.len()
            &&& forall|i: int| 0 <= i < channel@.len() ==> #[trigger] channel@[i] == samples@[i * num_channels]->0
        },
{
    let ghost all = samples@;
    let n = samples.len();
    let mut channel: Vec<T> = Vec::new();
    let mut idx: usize = 0;
    for sample in iter: samples.into_iter()
        invariant
            all == iter.seq(),
            all.len() == n,
            num_channels > 0 || all.len() == 0,
            idx == iter.index(),
            channel@ == first_channel_of(all, num_channels as nat, iter.index() as int),
    {
        if idx % (num_channels as usize) == 0 {
            if let Some(value) = sample {
                channel.push(value);
            }
        }
        idx = idx + 1;
    }
    proof {
        if num_channels > 0 {
            lemma_first_channel_positions(all, num_channels as nat, all.len() as int);
            if forall|i: int| 0 <= i < all.len() ==> #[trigger] all[i] is Some {
                lemma_first_channel_all_readable(all, num_channels as nat, all.len() as int);
            }
        }
    }
    channel
}

} // verus!
