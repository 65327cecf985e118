use vstd::prelude::*;

verus! {

/// One observation: the index of the iteration and the shape it read back.
pub type Sample = (usize, Vec<i64>);

/// What a sample stands for: its index and the dimensions of its shape.
pub type SampleModel = (nat, Seq<i64>);

/// The model of one sample.
pub open spec fn sample_model(s: Sample) -> SampleModel {
    (s.0 as nat, s.1@)
}

/// The model of a sequence of samples, element by element.
pub open spec fn samples_model(v: Seq<Sample>) -> Seq<SampleModel> {
    Seq::new(v.len(), |i: int| sample_model(v[i]))
}

/// How many samples a run over a buffer of `len` zeros owes: one for every
/// index in `1..len`.
pub open spec fn sample_count(len: nat) -> nat {
    if len == 0 {
        0
    } else {
        (len - 1) as nat
    }
}

/// The buffer that every tensor of a run is built from: `len` zeros.
pub open spec fn zeros(len: nat) -> Seq<i32> {
    Seq::new(len, |i: int| 0i32)
}

/// Allocates the buffer of a run, once for all its placements.
pub fn zero_buffer(len: usize) -> (buffer: Vec<i32>)
    ensures
        buffer@ == zeros(len as nat),
{
    let buffer = vec![0i32; len];
    proof {
        assert(buffer@ =~= zeros(len as nat));
    }
    buffer
}

/// The shapes numbered from one, in the order given.
pub open spec fn numbered(shapes: Seq<Seq<i64>>) -> Seq<SampleModel> {
    Seq::new(shapes.len(), |i: int| ((i + 1) as nat, shapes[i]))
}

/// The shape of a one-dimensional tensor over `len` elements.
pub open spec fn buffer_shape(len: nat) -> Seq<i64> {
    seq![len as i64]
}

/// The result set of a run over `len` zeros in which every placement
/// succeeded: indices `1..len` ascending, each with the shape `[len]`.
pub open spec fn expected_results(len: nat) -> Seq<SampleModel> {
    Seq::new(sample_count(len), |i: int| ((i + 1) as nat, buffer_shape(len)))
}

/// Whether the indices never decrease along the sequence.
pub open spec fn ascending(s: Seq<SampleModel>) -> bool {
    forall|i: int, j: int| 0 <= i <= j < s.len() ==> s[i].0 <= s[j].0
}

/// Whether the indices strictly increase along the sequence.
pub open spec fn strictly_ascending(s: Seq<SampleModel>) -> bool {
    forall|i: int, j: int| 0 <= i < j < s.len() ==> s[i].0 < s[j].0
}

/// Tells whether `results` is what an undisturbed run over `len` zeros
/// returns. A length that no dimension can hold matches nothing.
pub fn matches_expected(len: usize, results: &Vec<Sample>) -> (ok: bool)
    ensures
        ok == (len <= i64::MAX && samples_model(results@) == expected_results(len as nat)),
{
    let wide: u64 = len as u64;
    if wide > 0x7fff_ffff_ffff_ffff {
        return false;
    }
    let count: usize = if len == 0 { 0 } else { len - 1 };
    if results.len() != count {
        proof {
            assert(samples_model(results@).len() != expected_results(len as nat).len());
        }
        return false;
    }
    let mut i: usize = 0;
    while i < count
        invariant
            len <= i64::MAX,
            count == sample_count(len as nat),
            results.len() == count,
            i <= count,
            forall|k: int|
                0 <= k < i ==> #[trigger] sample_model(results@[k]) == ((k + 1) as nat, buffer_shape(
                    len as nat,
                )),
        decreases count - i,
    {
        let sample = &results[i];
        let good = sample.0 == i + 1 && sample.1.len() == 1 && sample.1[0] == len as i64;
        if !good {
            proof {
                let k = i as int;
                assert(samples_model(results@)[k] == sample_model(results@[k]));
                assert(expected_results(len as nat)[k] == ((k + 1) as nat, buffer_shape(len as nat)));
                assert(buffer_shape(len as nat).len() == 1);
                assert(buffer_shape(len as nat)[0] == len as i64);
            }
            return false;
        }
        proof {
            assert(sample.1@ =~= buffer_shape(len as nat));
        }
        i += 1;
    }
    proof {
        assert(samples_model(results@) =~= expected_results(len as nat));
    }
    true
}

} // verus!
