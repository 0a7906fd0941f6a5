//! Workloads, which a test composes of parts.
use vstd::prelude::*;

verus! {

/// A workload: it is set up, then it runs, then it is checked.
pub trait Workload {
    /// The name of the client that runs it: empty, unless an implementation says otherwise.
    open spec fn name_text(&self) -> Seq<u8> {
        Seq::empty()
    }

    /// The name of the client that runs it.
    fn name(&self) -> (r: Vec<u8>)
        ensures
            r@ == self.name_text(),
    ;
}

/// A workload that can be run by a client.
pub trait WorkloadObj {
    /// The name of the client that runs it.
    spec fn obj_name_text(&self) -> Seq<u8>;

    /// The name of the client that runs it.
    fn obj_name(&self) -> (r: Vec<u8>)
        ensures
            r@ == self.obj_name_text(),
    ;
}

impl<T: Workload> WorkloadObj for T {
    open spec fn obj_name_text(&self) -> Seq<u8> {
        self.name_text()
    }

    fn obj_name(&self) -> (r: Vec<u8>) {
        self.name()
    }
}

/// What makes a workload.
pub trait WorkloadFactory {
    /// The kind of workload.
    type Obj: WorkloadObj;

    /// Whether it makes such a workload: any, unless an implementation says otherwise.
    open spec fn makes(&self, obj: Self::Obj) -> bool {
        true
    }

    /// Makes a workload.
    fn build(&self) -> (r: Self::Obj)
        ensures
            self.makes(r),
    ;
}

/// What a client does for a workload.
#[derive(Clone, Copy, Debug, PartialEq, Eq, Structural)]
pub enum Phase {
    /// It sets the workload up.
    Setup,
    /// It runs the workload.
    Run,
    /// It checks what the workload did.
    Verify,
    /// It is done.
    Done,
}

impl Phase {
    /// What comes next.
    pub fn next(self) -> (r: Phase)
        ensures
            r == (match self {
                Phase::Setup => Phase::Run,
                Phase::Run => Phase::Verify,
                Phase::Verify => Phase::Done,
                Phase::Done => Phase::Done,
            }),
    {
        match self {
            Phase::Setup => Phase::Run,
            Phase::Run => Phase::Verify,
            Phase::Verify => Phase::Done,
            Phase::Done => Phase::Done,
        }
    }
}

/// Several workloads.
#[verifier::reject_recursive_types(F)]
pub struct CompoundWorkload<F: WorkloadFactory> {
    workloads: Vec<F>,
}

impl<F: WorkloadFactory> View for CompoundWorkload<F> {
    type V = Seq<F>;

    closed spec fn view(&self) -> Seq<F> {
        self.workloads@
    }
}

impl<F: WorkloadFactory> CompoundWorkload<F> {
    /// No workload.
    pub fn new() -> (r: Self)
        ensures
            r@ == Seq::<F>::empty(),
    {
        CompoundWorkload { workloads: Vec::new() }
    }

    /// Adds a workload.
    pub fn add_workload(&mut self, workload: F)
        ensures
            final(self)@ == old(self)@.push(workload),
    {
        self.workloads.push(workload);
    }

    /// Makes the workloads, in the order in which they were added, each with the name of the
    /// client that runs it.
    pub fn apply(&self) -> (r: Vec<(Vec<u8>, F::Obj)>)
        ensures
            r@.len() == self@.len(),
            forall|i: int|
                0 <= i < r@.len() ==> self@[i].makes((#[trigger] r@[i]).1) && r@[i].0@
                    == r@[i].1.obj_name_text(),
    {
        let mut out: Vec<(Vec<u8>, F::Obj)> = Vec::new();
        let mut i: usize = 0;
        while i < self.workloads.len()
            invariant
                i <= self@.len(),
                out@.len() == i,
                forall|k: int|
                    0 <= k < i ==> self@[k].makes((#[trigger] out@[k]).1) && out@[k].0@
                        == out@[k].1.obj_name_text(),
            decreases self.workloads.len() - i,
        {
            let wk = self.workloads[i].build();
            let name = wk.obj_name();
            out.push((name, wk));
            i = i + 1;
        }
        out
    }
}

} // verus!
