use vstd::prelude::*;
use crate::device::Device;
use crate::error::LoadTestError;
use crate::sample::{numbered, sample_count, samples_model, Sample, SampleModel};

verus! {

/// One placement that a run asks for: build a tensor over `len` zeros, put it
/// on `device`, and report its shape as the sample numbered `index`.
#[derive(Clone, Copy, Debug, PartialEq, Eq, Structural)]
pub struct Request {
    pub index: usize,
    pub len: usize,
    pub device: Device,
}

/// The placements of a run over `len` zeros, in ascending order of index.
pub open spec fn requests(len: nat, device: Device) -> Seq<Request> {
    Seq::new(
        sample_count(len),
        |i: int| (Request { index: (i + 1) as usize, len: len as usize, device }),
    )
}

/// A sequential run: it hands out one placement at a time and numbers the
/// shapes in the order in which they are recorded.
pub struct Generator {
    len: usize,
    device: Device,
    results: Vec<Sample>,
}

impl Generator {
    /// The length of the buffer that every placement is made from.
    pub closed spec fn len(&self) -> nat {
        self.len as nat
    }

    /// The device that every placement goes to.
    pub closed spec fn device(&self) -> Device {
        self.device
    }

    /// The samples recorded so far.
    pub closed spec fn recorded(&self) -> Seq<SampleModel> {
        samples_model(self.results@)
    }

    /// The shapes recorded so far, in order.
    pub open spec fn shapes(&self) -> Seq<Seq<i64>> {
        Seq::new(self.recorded().len(), |i: int| self.recorded()[i].1)
    }

    /// A run never holds more samples than it owes, and the sample at
    /// position `i` carries the index `i + 1`.
    pub closed spec fn wf(&self) -> bool {
        &&& self.results.len() <= sample_count(self.len as nat)
        &&& forall|i: int| 0 <= i < self.results.len() ==> (#[trigger] self.results[i]).0 == i + 1
    }

    /// Whether every sample that the run owes has been recorded.
    pub open spec fn complete(&self) -> bool {
        self.recorded().len() == sample_count(self.len())
    }

    /// A run over `len` zeros on `device`, with nothing recorded yet.
    pub fn new(len: usize, device: Device) -> (g: Generator)
        ensures
            g.wf(),
            g.len() == len,
            g.device() == device,
            g.recorded() == Seq::<SampleModel>::empty(),
    {
        let g = Generator { len, device, results: Vec::new() };
        proof {
            assert(g.recorded() =~= Seq::<SampleModel>::empty());
        }
        g
    }

    /// The placement that is due next, or `None` once the run is complete.
    pub fn next_request(&self) -> (r: Option<Request>)
        requires
            self.wf(),
        ensures
            r == if self.complete() {
                None
            } else {
                Some(requests(self.len(), self.device())[self.recorded().len() as int])
            },
    {
        let done = self.results.len();
        if self.len == 0 || done >= self.len - 1 {
            None
        } else {
            Some(Request { index: done + 1, len: self.len, device: self.device })
        }
    }

    /// Records the shape that the pending placement read back. A complete
    /// run takes no more: it stays as it is and the answer is `false`.
    pub fn record(&mut self, shape: Vec<i64>) -> (accepted: bool)
        requires
            old(self).wf(),
        ensures
            final(self).wf(),
            final(self).len() == old(self).len(),
            final(self).device() == old(self).device(),
            accepted == !old(self).complete(),
            final(self).recorded() == if accepted {
                old(self).recorded().push(((old(self).recorded().len() + 1) as nat, shape@))
            } else {
                old(self).recorded()
            },
    {
        let done = self.results.len();
        if self.len == 0 || done >= self.len - 1 {
            return false;
        }
        let ghost before = self.results@;
        self.results.push((done + 1, shape));
        proof {
            assert(samples_model(self.results@) =~= samples_model(before).push(
                ((done + 1) as nat, shape@),
            ));
        }
        true
    }

    /// Ends the run. A complete run yields its samples; one that stopped
    /// early yields no partial result, only the device error.
    pub fn finish(self) -> (r: Result<Vec<Sample>, LoadTestError>)
        requires
            self.wf(),
        ensures
            self.complete() ==> r is Ok && samples_model(r->Ok_0@) == self.recorded(),
            !self.complete() ==> r == Err::<Vec<Sample>, LoadTestError>(LoadTestError::Device),
            r is Ok ==> samples_model(r->Ok_0@) == numbered(self.shapes()),
            r matches Ok(results) ==> results@.len() == sample_count(self.len()) && forall|i: int|
                0 <= i < results@.len() ==> (#[trigger] results@[i]).0 == i + 1,
    {
        proof {
            self.lemma_recorded_is_numbered();
        }
        let owed: usize = if self.len == 0 { 0 } else { self.len - 1 };
        if self.results.len() == owed {
            Ok(self.results)
        } else {
            Err(LoadTestError::Device)
        }
    }

    /// The samples of a run are its shapes numbered from one.
    pub proof fn lemma_recorded_is_numbered(&self)
        requires
            self.wf(),
        ensures
            self.recorded() == numbered(self.shapes()),
            self.recorded().len() <= sample_count(self.len()),
    {
        assert forall|i: int| 0 <= i < self.recorded().len() implies self.recorded()[i]
            == numbered(self.shapes())[i] by {
            assert(self.results[i].0 == i + 1);
        }
        assert(self.recorded() =~= numbered(self.shapes()));
    }
}

/// The placements of a parallel run over `len` zeros on `device`, one for
/// every index in `1..len`, for workers to share out among themselves.
pub fn fan_out(len: usize, device: Device) -> (work: Vec<Request>)
    ensures
        work@ == requests(len as nat, device),
{
    let mut work: Vec<Request> = Vec::new();
    let mut i: usize = 1;
    while i < len
        invariant
            1 <= i,
            i <= len || i == 1,
            work@.len() == i - 1,
            forall|k: int|
                0 <= k < work@.len() ==> work@[k] == (Request {
                    index: (k + 1) as usize,
                    len,
                    device,
                }),
        decreases len - i,
    {
        work.push(Request { index: i, len, device });
        i += 1;
    }
    proof {
        assert(work@ =~= requests(len as nat, device));
    }
    work
}

/// A sequential run on the processor.
pub fn cpu_load_test(len: usize) -> (g: Generator)
    ensures
        g.wf(),
        g.len() == len,
        g.device() == Device::Cpu,
        g.recorded() == Seq::<SampleModel>::empty(),
{
    Generator::new(len, Device::Cpu)
}

/// A sequential run on the first GPU.
pub fn gpu_load_test(len: usize) -> (g: Generator)
    ensures
        g.wf(),
        g.len() == len,
        g.device() == Device::Cuda(0),
        g.recorded() == Seq::<SampleModel>::empty(),
{
    Generator::new(len, Device::first_gpu())
}

/// The placements of a parallel run on the processor.
pub fn cpu_load_test_rayon(len: usize) -> (work: Vec<Request>)
    ensures
        work@ == requests(len as nat, Device::Cpu),
{
    fan_out(len, Device::Cpu)
}

/// The placements of a parallel run on the first GPU.
pub fn gpu_load_test_rayon(len: usize) -> (work: Vec<Request>)
    ensures
        work@ == requests(len as nat, Device::Cuda(0)),
{
    fan_out(len, Device::first_gpu())
}

} // verus!
