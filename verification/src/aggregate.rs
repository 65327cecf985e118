use vstd::prelude::*;
use vstd::seq_lib::{to_multiset_contains, to_multiset_insert, to_multiset_remove};
use crate::sample::{ascending, sample_model, samples_model, Sample, SampleModel};

verus! {

/// How many leading samples of `t` carry an index below `key`: the place at
/// which a sample with that index goes in front of its equals.
pub open spec fn rank(t: Seq<SampleModel>, key: nat) -> nat
    decreases t.len(),
{
    if t.len() == 0 || t[0].0 >= key {
        0
    } else {
        1 + rank(t.drop_first(), key)
    }
}

/// The samples in ascending order of index; samples with one index keep the
/// order in which they arrived.
pub open spec fn sorted_by_index(s: Seq<SampleModel>) -> Seq<SampleModel>
    decreases s.len(),
{
    if s.len() == 0 {
        Seq::empty()
    } else {
        let rest = sorted_by_index(s.drop_first());
        rest.insert(rank(rest, s[0].0) as int, s[0])
    }
}

/// `rank` is the first position whose index is not below `key`.
pub proof fn lemma_rank_bounds(t: Seq<SampleModel>, key: nat)
    ensures
        rank(t, key) <= t.len(),
        forall|j: int| 0 <= j < rank(t, key) ==> (#[trigger] t[j]).0 < key,
        rank(t, key) < t.len() ==> t[rank(t, key) as int].0 >= key,
    decreases t.len(),
{
    if t.len() == 0 || t[0].0 >= key {
    } else {
        let tail = t.drop_first();
        lemma_rank_bounds(tail, key);
        assert forall|j: int| 0 <= j < rank(t, key) implies (#[trigger] t[j]).0 < key by {
            if j > 0 {
                assert(t[j] == tail[j - 1]);
            }
        }
        if rank(t, key) < t.len() {
            assert(t[rank(t, key) as int] == tail[rank(tail, key) as int]);
        }
    }
}

/// A position that has only smaller indices before it and none at it is the
/// rank.
pub proof fn lemma_rank_is(t: Seq<SampleModel>, key: nat, p: int)
    requires
        0 <= p <= t.len(),
        forall|j: int| 0 <= j < p ==> (#[trigger] t[j]).0 < key,
        p < t.len() ==> t[p].0 >= key,
    ensures
        rank(t, key) == p,
    decreases t.len(),
{
    if p > 0 {
        let tail = t.drop_first();
        assert(t[0].0 < key);
        assert forall|j: int| 0 <= j < p - 1 implies (#[trigger] tail[j]).0 < key by {
            assert(tail[j] == t[j + 1]);
        }
        lemma_rank_is(tail, key, p - 1);
    }
}

/// Sorting by index leaves the indices in ascending order.
pub proof fn lemma_sorted_is_ascending(s: Seq<SampleModel>)
    ensures
        ascending(sorted_by_index(s)),
        sorted_by_index(s).len() == s.len(),
    decreases s.len(),
{
    if s.len() > 0 {
        let rest = sorted_by_index(s.drop_first());
        let at = rank(rest, s[0].0) as int;
        let all = sorted_by_index(s);
        lemma_sorted_is_ascending(s.drop_first());
        lemma_rank_bounds(rest, s[0].0);
        assert(all == rest.insert(at, s[0]));
        assert forall|i: int, j: int| 0 <= i <= j < all.len() implies all[i].0 <= all[j].0 by {
            if at < rest.len() {
                assert(rest[at].0 >= s[0].0);
            }
            if i < at {
                assert(all[i] == rest[i]);
            } else if i > at {
                assert(all[i] == rest[i - 1]);
            }
            if j < at {
                assert(all[j] == rest[j]);
            } else if j > at {
                assert(all[j] == rest[j - 1]);
                assert(rest[at].0 <= rest[j - 1].0);
            }
        }
    }
}

/// Sorting by index neither drops a sample nor makes one up: the result
/// holds the samples that arrived, each as often as it arrived.
pub proof fn lemma_sorted_keeps_samples(s: Seq<SampleModel>)
    ensures
        sorted_by_index(s).to_multiset() == s.to_multiset(),
    decreases s.len(),
{
    if s.len() > 0 {
        let rest = sorted_by_index(s.drop_first());
        let at = rank(rest, s[0].0) as int;
        lemma_sorted_keeps_samples(s.drop_first());
        lemma_rank_bounds(rest, s[0].0);
        to_multiset_insert(rest, at, s[0]);
        to_multiset_remove(s, 0);
        to_multiset_contains(s, s[0]);
        assert(s.remove(0) =~= s.drop_first());
        assert(s.contains(s[0]));
        assert(s.to_multiset().remove(s[0]).insert(s[0]) =~= s.to_multiset());
    } else {
        assert(sorted_by_index(s) =~= s);
    }
}

/// The place at which a sample with index `key` enters `out`.
fn insertion_point(out: &Vec<Sample>, key: usize) -> (pos: usize)
    ensures
        pos == rank(samples_model(out@), key as nat),
        pos <= out.len(),
{
    let mut pos: usize = 0;
    while pos < out.len() && out[pos].0 < key
        invariant
            pos <= out.len(),
            forall|j: int| 0 <= j < pos ==> (#[trigger] out@[j]).0 < key,
        decreases out.len() - pos,
    {
        pos += 1;
    }
    proof {
        let t = samples_model(out@);
        assert forall|j: int| 0 <= j < pos implies (#[trigger] t[j]).0 < key as nat by {
            assert(out@[j].0 < key);
        }
        lemma_rank_is(t, key as nat, pos as int);
    }
    pos
}

/// Restores the order of a parallel run: the samples that the workers
/// delivered, sorted by index.
pub fn aggregate(arrived: Vec<Sample>) -> (results: Vec<Sample>)
    ensures
        samples_model(results@) == sorted_by_index(samples_model(arrived@)),
        ascending(samples_model(results@)),
        samples_model(results@).to_multiset() == samples_model(arrived@).to_multiset(),
        results@.len() == arrived@.len(),
{
    let ghost all = samples_model(arrived@);
    let mut rest = arrived;
    let mut results: Vec<Sample> = Vec::new();
    proof {
        assert(all.subrange(all.len() as int, all.len() as int) =~= Seq::empty());
        assert(samples_model(results@) =~= Seq::empty());
        assert(samples_model(rest@) =~= all.subrange(0, rest.len() as int));
    }
    while rest.len() > 0
        invariant
            rest.len() <= all.len(),
            samples_model(rest@) == all.subrange(0, rest.len() as int),
            samples_model(results@) == sorted_by_index(
                all.subrange(rest.len() as int, all.len() as int),
            ),
        decreases rest.len(),
    {
        let ghost before_rest = rest@;
        let ghost before = results@;
        let ghost k = rest.len() - 1;
        let sample = rest.pop().unwrap();
        let pos = insertion_point(&results, sample.0);
        proof {
            assert(sample_model(sample) == samples_model(before_rest)[k]);
            assert(sample_model(sample) == all[k]);
        }
        let ghost entering = sample_model(sample);
        results.insert(pos, sample);
        proof {
            let tail = all.subrange(k + 1, all.len() as int);
            let now = all.subrange(k, all.len() as int);
            assert(now.drop_first() =~= tail);
            assert(now[0] == all[k]);
            assert(samples_model(results@) =~= samples_model(before).insert(pos as int, entering));
            assert(samples_model(rest@) =~= all.subrange(0, k));
        }
    }
    proof {
        assert(all.subrange(0, all.len() as int) =~= all);
        lemma_sorted_is_ascending(all);
        lemma_sorted_keeps_samples(all);
    }
    results
}

/// The buffer that the workers of a parallel run share: each appends its
/// sample as it finishes, so the buffer holds the samples in order of
/// arrival.
pub struct SharedBuffer {
    samples: Vec<Sample>,
}

impl View for SharedBuffer {
    type V = Seq<SampleModel>;

    /// The samples appended so far, in order of arrival.
    closed spec fn view(&self) -> Seq<SampleModel> {
        samples_model(self.samples@)
    }
}

impl SharedBuffer {
    /// A buffer that holds nothing yet.
    pub fn new() -> (buffer: SharedBuffer)
        ensures
            buffer@ == Seq::<SampleModel>::empty(),
    {
        let buffer = SharedBuffer { samples: Vec::new() };
        proof {
            assert(buffer@ =~= Seq::<SampleModel>::empty());
        }
        buffer
    }

    /// Appends the sample of one worker behind those that arrived before.
    pub fn push(&mut self, index: usize, shape: Vec<i64>)
        ensures
            final(self)@ == old(self)@.push((index as nat, shape@)),
    {
        let ghost before = self.samples@;
        self.samples.push((index, shape));
        proof {
            assert(samples_model(self.samples@) =~= samples_model(before).push(
                (index as nat, shape@),
            ));
        }
    }

    /// Hands the samples out once the workers have joined, in ascending
    /// order of index.
    pub fn into_results(self) -> (results: Vec<Sample>)
        ensures
            samples_model(results@) == sorted_by_index(self@),
            ascending(samples_model(results@)),
            samples_model(results@).to_multiset() == self@.to_multiset(),
    {
        aggregate(self.samples)
    }
}

} // verus!
