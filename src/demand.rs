//! Transport requests and their seeded uniform generation.
use crate::plan::{manhattan, Plan, Vertex};
use rand::rngs::StdRng;
use rand::{Rng, SeedableRng};
use vstd::prelude::*;

verus! {

/// Carry a parcel from a source `from` to a terminal `to`.
#[derive(Copy, Clone, Debug, PartialEq, Eq, Hash, Structural)]
pub struct Request {
    pub from: Vertex,
    pub to: Vertex,
}

impl Request {
    /// Manhattan distance from pickup to drop-off.
    pub fn distance(&self) -> (r: u64)
        requires
            manhattan(self.from, self.to) <= u64::MAX,
        ensures
            r == manhattan(self.from, self.to),
    {
        self.from.distance(self.to)
    }
}

#[verifier::external_type_specification]
#[verifier::external_body]
pub struct ExStdRng(StdRng);

/// Relies on `StdRng::from_seed` (rand's `SeedableRng`): a generator seeded
/// with the 32 bytes.
#[verifier::external_body]
fn seeded_rng(seed: [u8; 32]) -> StdRng {
    StdRng::from_seed(seed)
}

/// Relies on `Rng::choose`: an element of `values`, or nothing when it is
/// empty.
#[verifier::external_body]
fn choose_vertex(rng: &mut StdRng, values: &Vec<Vertex>) -> (r: Option<Vertex>)
    ensures
        r is None <==> values@.len() == 0,
        r matches Some(v) ==> values@.contains(v),
{
    rng.choose(values).map(|v| *v)
}

/// Relies on `rand::seq::sample_indices`: `amount` distinct indices below
/// `length`.
#[verifier::external_body]
pub(crate) fn sample_indices(rng: &mut StdRng, length: usize, amount: usize) -> (r: Vec<usize>)
    requires
        amount <= length,
    ensures
        r@.len() == amount,
        r@.no_duplicates(),
        forall|i: int| 0 <= i < r@.len() ==> r@[i] < length,
{
    rand::seq::sample_indices(rng, length, amount)
}

/// Draws each request's source and terminal independently and uniformly;
/// the same seed gives the same sequence.
pub struct Uniform {
    rng: StdRng,
}

impl Uniform {
    pub fn create(seed: [u8; 32]) -> (r: Uniform) {
        Uniform { rng: seeded_rng(seed) }
    }

    /// The generator, for further seeded draws.
    pub fn rng(&mut self) -> (r: &mut StdRng) {
        &mut self.rng
    }

    /// `nr_requests` requests from a source to a terminal of `plan`; none
    /// when the plan has no source or no terminal.
    pub fn generate<P: Plan>(&mut self, plan: &P, nr_requests: u64) -> (r: Vec<Request>)
        requires
            plan.wf(),
        ensures
            forall|i: int| 0 <= i < r@.len() ==> plan.is_source((#[trigger] r@[i]).from) && plan.is_terminal(r@[i].to),
            r@.len() == nr_requests || r@.len() == 0,
            (exists|v: Vertex| plan.is_source(v)) && (exists|v: Vertex| plan.is_terminal(v)) ==> r@.len() == nr_requests,
    {
        let sources = plan.sources();
        let terminals = plan.terminals();
        let mut requests: Vec<Request> = Vec::new();
        if sources.len() == 0 || terminals.len() == 0 {
            proof {
                if exists|v: Vertex| plan.is_source(v) {
                    let v = choose|v: Vertex| plan.is_source(v);
                    assert(sources@.contains(v));
                }
                if exists|v: Vertex| plan.is_terminal(v) {
                    let v = choose|v: Vertex| plan.is_terminal(v);
                    assert(terminals@.contains(v));
                }
            }
            return requests;
        }
        let mut i: u64 = 0;
        while i < nr_requests
            invariant
                plan.wf(),
                i <= nr_requests,
                requests@.len() == i,
                sources@.len() > 0,
                terminals@.len() > 0,
                forall|v: Vertex| #[trigger] sources@.contains(v) <==> plan.is_source(v),
                forall|v: Vertex| #[trigger] terminals@.contains(v) <==> plan.is_terminal(v),
                forall|k: int| 0 <= k < requests@.len() ==> plan.is_source((#[trigger] requests@[k]).from) && plan.is_terminal(requests@[k].to),
            decreases nr_requests - i,
        {
            let source = match choose_vertex(&mut self.rng, &sources) {
                Some(v) => v,
                None => return requests,
            };
            let terminal = match choose_vertex(&mut self.rng, &terminals) {
                Some(v) => v,
                None => return requests,
            };
            requests.push(Request { from: source, to: terminal });
            i = i + 1;
        }
        requests
    }
}

} // verus!
