use vstd::prelude::*;
use vstd::seq_lib::{to_multiset_contains, to_multiset_len, to_multiset_remove};
use crate::aggregate::{
    lemma_rank_bounds, lemma_sorted_is_ascending, lemma_sorted_keeps_samples, rank,
    sorted_by_index,
};
use crate::device::Device;
use crate::generate::{requests, Generator, Request};
use crate::sample::{
    ascending, buffer_shape, expected_results, numbered, sample_count, strictly_ascending,
    SampleModel,
};

verus! {

/// Picks the samples that carry the index `k`.
pub open spec fn has_index(k: nat) -> spec_fn(SampleModel) -> bool {
    |sample: SampleModel| sample.0 == k
}

/// Filtering a sequence in which nothing passes leaves nothing.
proof fn lemma_filter_nothing(s: Seq<SampleModel>, k: nat)
    requires
        forall|i: int| 0 <= i < s.len() ==> (#[trigger] s[i]).0 != k,
    ensures
        s.filter(has_index(k)) == Seq::<SampleModel>::empty(),
    decreases s.len(),
{
    reveal(Seq::filter);
    if s.len() > 0 {
        let init = s.drop_last();
        assert forall|i: int| 0 <= i < init.len() implies (#[trigger] init[i]).0 != k by {
            assert(init[i] == s[i]);
        }
        lemma_filter_nothing(init, k);
        assert(s.last() == s[s.len() - 1]);
    } else {
        assert(s =~= Seq::<SampleModel>::empty());
    }
}

/// Sorting by index is stable: the samples that carry one index leave in
/// the order in which they arrived.
pub proof fn lemma_sorted_is_stable(s: Seq<SampleModel>, k: nat)
    ensures
        sorted_by_index(s).filter(has_index(k)) == s.filter(has_index(k)),
    decreases s.len(),
{
    if s.len() > 0 {
        let pick = has_index(k);
        let first = seq![s[0]];
        let tail = s.drop_first();
        let rest = sorted_by_index(tail);
        let at = rank(rest, s[0].0) as int;
        lemma_sorted_is_stable(tail, k);
        lemma_rank_bounds(rest, s[0].0);
        let before = rest.subrange(0, at);
        let after = rest.subrange(at, rest.len() as int);
        assert(rest =~= before + after);
        assert(sorted_by_index(s) =~= (before + first) + after);
        assert(s =~= first + tail);
        Seq::filter_distributes_over_add(before, after, pick);
        Seq::filter_distributes_over_add(before + first, after, pick);
        Seq::filter_distributes_over_add(before, first, pick);
        Seq::filter_distributes_over_add(first, tail, pick);
        if s[0].0 == k {
            assert forall|i: int| 0 <= i < before.len() implies (#[trigger] before[i]).0 != k by {
                assert(before[i] == rest[i]);
            }
            lemma_filter_nothing(before, k);
        } else {
            lemma_filter_nothing(first, k);
        }
        let none = Seq::<SampleModel>::empty();
        assert(none + after.filter(pick) =~= after.filter(pick));
        assert(first.filter(pick) + none =~= first.filter(pick));
        assert(none + first.filter(pick) =~= first.filter(pick));
        assert(before.filter(pick) + none =~= before.filter(pick));
        assert((first.filter(pick) + before.filter(pick)) + after.filter(pick) =~= first.filter(pick)
            + (before.filter(pick) + after.filter(pick)));
    } else {
        assert(sorted_by_index(s) =~= s);
    }
}

/// Two sequences that hold the same samples, one in ascending and one in
/// strictly ascending order of index, are the same sequence.
pub proof fn lemma_ascending_order_is_unique(x: Seq<SampleModel>, y: Seq<SampleModel>)
    requires
        ascending(x),
        strictly_ascending(y),
        x.to_multiset() == y.to_multiset(),
    ensures
        x == y,
    decreases x.len(),
{
    to_multiset_len(x);
    to_multiset_len(y);
    if x.len() > 0 {
        let n = x.len() as int;
        let x_last = x[n - 1];
        let y_last = y[n - 1];
        to_multiset_contains(x, x_last);
        to_multiset_contains(y, x_last);
        to_multiset_contains(x, y_last);
        to_multiset_contains(y, y_last);
        assert(x.contains(x_last));
        assert(y.contains(y_last));
        let j = choose|j: int| 0 <= j < y.len() && y[j] == x_last;
        let i = choose|i: int| 0 <= i < x.len() && x[i] == y_last;
        assert(x[i].0 <= x[n - 1].0);
        assert(j == n - 1) by {
            if j < n - 1 {
                assert(y[j].0 < y[n - 1].0);
            }
        }
        to_multiset_remove(x, n - 1);
        to_multiset_remove(y, n - 1);
        let x_init = x.remove(n - 1);
        let y_init = y.remove(n - 1);
        assert forall|a: int, b: int| 0 <= a <= b < x_init.len() implies x_init[a].0
            <= x_init[b].0 by {
            assert(x_init[a] == x[a] && x_init[b] == x[b]);
        }
        assert forall|a: int, b: int| 0 <= a < b < y_init.len() implies y_init[a].0
            < y_init[b].0 by {
            assert(y_init[a] == y[a] && y_init[b] == y[b]);
        }
        lemma_ascending_order_is_unique(x_init, y_init);
        assert(x =~= x_init.push(x_last));
        assert(y =~= y_init.push(y_last));
    } else {
        assert(x =~= y);
    }
}

/// Numbering puts the shapes in strictly ascending order of index: position
/// `i` carries the index `i + 1`.
pub proof fn lemma_numbered_is_strictly_ascending(shapes: Seq<Seq<i64>>)
    ensures
        strictly_ascending(numbered(shapes)),
        numbered(shapes).len() == shapes.len(),
        forall|i: int|
            0 <= i < shapes.len() ==> #[trigger] numbered(shapes)[i] == ((i + 1) as nat, shapes[i]),
{
}

/// A complete sequential run over `len` zeros holds `len - 1` samples, the
/// indices `1..len` in ascending order, each with the shape that its
/// placement read back; where every placement read back `[len]`, the run is
/// the expected result set.
pub proof fn lemma_sequential_result(g: Generator)
    requires
        g.wf(),
        g.complete(),
    ensures
        g.recorded().len() == sample_count(g.len()),
        forall|i: int|
            0 <= i < g.recorded().len() ==> (#[trigger] g.recorded()[i]).0 == i + 1,
        strictly_ascending(g.recorded()),
        (forall|i: int| 0 <= i < g.recorded().len() ==> (#[trigger] g.recorded()[i]).1
            == buffer_shape(g.len())) ==> g.recorded() == expected_results(g.len()),
{
    g.lemma_recorded_is_numbered();
    lemma_numbered_is_strictly_ascending(g.shapes());
    if forall|i: int| 0 <= i < g.recorded().len() ==> (#[trigger] g.recorded()[i]).1
        == buffer_shape(g.len()) {
        assert(g.recorded() =~= expected_results(g.len()));
    }
}

/// Parallelism does not change the result: whatever the order in which the
/// workers delivered the samples of a sequential run, sorting them by index
/// gives that run's result set back.
pub proof fn lemma_parallel_equals_sequential(arrived: Seq<SampleModel>, shapes: Seq<Seq<i64>>)
    requires
        arrived.to_multiset() == numbered(shapes).to_multiset(),
    ensures
        sorted_by_index(arrived) == numbered(shapes),
{
    lemma_sorted_is_ascending(arrived);
    lemma_sorted_keeps_samples(arrived);
    lemma_numbered_is_strictly_ascending(shapes);
    lemma_ascending_order_is_unique(sorted_by_index(arrived), numbered(shapes));
}

/// A run over a buffer of at most one zero owes nothing: it asks for no
/// placement, is complete from the start, and its result set is empty in
/// either mode.
pub proof fn lemma_short_run_is_empty(g: Generator, device: Device)
    requires
        g.wf(),
        g.len() <= 1,
    ensures
        g.complete(),
        g.recorded() == Seq::<SampleModel>::empty(),
        requests(g.len(), device) == Seq::<Request>::empty(),
        expected_results(g.len()) == Seq::<SampleModel>::empty(),
        sorted_by_index(Seq::<SampleModel>::empty()) == Seq::<SampleModel>::empty(),
{
    g.lemma_recorded_is_numbered();
    assert(g.recorded() =~= Seq::<SampleModel>::empty());
    assert(requests(g.len(), device) =~= Seq::<Request>::empty());
    assert(expected_results(g.len()) =~= Seq::<SampleModel>::empty());
}

/// A run carries no hidden state: two sequential runs that read back the
/// same shapes hold the same samples, and two parallel runs over those
/// shapes return the same result set however their workers interleaved.
pub proof fn lemma_runs_repeat(
    first: Generator,
    second: Generator,
    first_arrived: Seq<SampleModel>,
    second_arrived: Seq<SampleModel>,
)
    requires
        first.wf(),
        second.wf(),
        first.shapes() == second.shapes(),
        first_arrived.to_multiset() == first.recorded().to_multiset(),
        second_arrived.to_multiset() == second.recorded().to_multiset(),
    ensures
        first.recorded() == second.recorded(),
        sorted_by_index(first_arrived) == sorted_by_index(second_arrived),
        sorted_by_index(first_arrived) == first.recorded(),
{
    first.lemma_recorded_is_numbered();
    second.lemma_recorded_is_numbered();
    lemma_parallel_equals_sequential(first_arrived, first.shapes());
    lemma_parallel_equals_sequential(second_arrived, second.shapes());
}

} // verus!
