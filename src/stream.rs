//! The decoding of a snapshot's sample lines into a stream of
//! (caller, callee, allocation) triples.
//!
//! The lines are a pre-order walk of the caller tree in which each line
//! announces how many of the following lines are its direct callers. A stack
//! of (call, callers still to come) follows the walk: a line's callee is the
//! call on top of the stack once the frames with no caller left are popped.
use vstd::prelude::*;

use crate::allocation::{Allocation, Location};
use crate::indexing::CallDescriptor;
use crate::massif::{newline_count, parse_samples, split_lines, ParseError};
use crate::parsing::{decodes_as, sample_fits};
use crate::parsing::{Call, Sample};

verus! {

/// One decoded line: the call it names, the call it is a caller of (none
/// at the top of a tree), and the allocation it reports.
#[derive(Debug, Clone, PartialEq, Eq)]
pub struct Triple {
    pub caller: CallDescriptor,
    pub callee: Option<CallDescriptor>,
    pub allocation: Allocation,
}

/// The identity of the call that a symbol names.
pub open spec fn descriptor_of(c: Call) -> CallDescriptor {
    match c {
        Call::Sampled(Some(a), _) => CallDescriptor::Inner(a),
        Call::Sampled(None, _) => CallDescriptor::Leaf,
        Call::Ignored(_, _) => CallDescriptor::Root,
    }
}

/// The location that a symbol reports.
pub open spec fn location_of(c: Call) -> Location {
    match c {
        Call::Sampled(_, d) => Location::Described(d),
        Call::Ignored(n, t) => Location::Omitted(n, t),
    }
}

/// The frames with no caller left popped off the top.
pub open spec fn pop_closed(st: Seq<(CallDescriptor, usize)>) -> Seq<(CallDescriptor, usize)>
    decreases st.len(),
{
    if st.len() > 0 && st.last().1 == 0 {
        pop_closed(st.drop_last())
    } else {
        st
    }
}

/// The callee that a line finds on the stack `st`.
pub open spec fn callee_on(st: Seq<(CallDescriptor, usize)>) -> Option<CallDescriptor> {
    let p = pop_closed(st);
    if p.len() > 0 {
        Some(p.last().0)
    } else {
        None
    }
}

/// The stack after one more line.
pub open spec fn stack_step(st: Seq<(CallDescriptor, usize)>, s: Sample) -> Seq<(CallDescriptor, usize)> {
    let p = pop_closed(st);
    let q = if p.len() > 0 {
        p.update(p.len() - 1, (p.last().0, (p.last().1 - 1) as usize))
    } else {
        p
    };
    q.push((descriptor_of(s.call), s.nb_callers))
}

/// The stack after the lines `samples`.
pub open spec fn stack_after(samples: Seq<Sample>) -> Seq<(CallDescriptor, usize)>
    decreases samples.len(),
{
    if samples.len() == 0 {
        Seq::empty()
    } else {
        stack_step(stack_after(samples.drop_last()), samples.last())
    }
}

/// The callee of line `i` of `samples`.
pub open spec fn callee_at(samples: Seq<Sample>, i: int) -> Option<CallDescriptor> {
    callee_on(stack_after(samples.take(i)))
}

/// The (caller, callee) identities of the triples of `samples`, one per line.
pub open spec fn triple_identities(samples: Seq<Sample>) -> Seq<(CallDescriptor, Option<CallDescriptor>)> {
    Seq::new(samples.len(), |i: int| (descriptor_of(samples[i].call), callee_at(samples, i)))
}

/// The triple of `s`, whose callee is `callee`.
pub open spec fn triple_of(s: Sample, callee: Option<CallDescriptor>) -> Triple {
    Triple {
        caller: descriptor_of(s.call),
        callee,
        allocation: Allocation { bytes: s.bytes, location: location_of(s.call) },
    }
}

fn descriptor_exec(c: &Call) -> (r: CallDescriptor)
    ensures
        r == descriptor_of(*c),
{
    match c {
        Call::Sampled(Some(a), _) => CallDescriptor::Inner(*a),
        Call::Sampled(None, _) => CallDescriptor::Leaf,
        Call::Ignored(_, _) => CallDescriptor::Root,
    }
}

fn location_exec(c: &Call) -> (r: Location)
    ensures
        r == location_of(*c),
{
    match c {
        Call::Sampled(_, d) => Location::Described(d.clone()),
        Call::Ignored(n, t) => Location::Omitted(*n, t.clone()),
    }
}

/// The triples of a snapshot's sample lines.
pub open spec fn snapshot_triples(samples: Seq<Sample>) -> Seq<Triple> {
    Seq::new(samples.len(), |i: int| triple_of(samples[i], callee_at(samples, i)))
}

/// Decodes a snapshot's sample lines into triples, one per line.
pub fn triples_of(samples: &Vec<Sample>) -> (r: Vec<Triple>)
    ensures
        r@.len() == samples@.len(),
        forall|i: int|
            0 <= i < samples@.len() ==> #[trigger] r@[i] == triple_of(samples@[i], callee_at(samples@, i)),
{
    let mut stack: Vec<(CallDescriptor, usize)> = Vec::new();
    let mut r: Vec<Triple> = Vec::new();
    let mut k: usize = 0;
    while k < samples.len()
        invariant
            k <= samples@.len(),
            r@.len() == k,
            stack@ == stack_after(samples@.take(k as int)),
            forall|i: int|
                0 <= i < k ==> #[trigger] r@[i] == triple_of(samples@[i], callee_at(samples@, i)),
        decreases samples@.len() - k,
    {
        let ghost st0 = stack@;
        while stack.len() > 0 && stack[stack.len() - 1].1 == 0
            invariant
                pop_closed(stack@) == pop_closed(st0),
            decreases stack@.len(),
        {
            let ghost s1 = stack@;
            stack.pop();
            assert(stack@ == s1.drop_last());
        }
        let callee = if stack.len() > 0 {
            let n = stack.len() - 1;
            let (d, left) = stack[n];
            stack.set(n, (d, left - 1));
            Some(d)
        } else {
            None
        };
        let sample = &samples[k];
        let caller = descriptor_exec(&sample.call);
        let location = location_exec(&sample.call);
        stack.push((caller, sample.nb_callers));
        r.push(Triple { caller, callee, allocation: Allocation { bytes: sample.bytes, location } });
        proof {
            assert(samples@.take(k + 1).drop_last() == samples@.take(k as int));
            assert(samples@.take(k + 1).last() == samples@[k as int]);
            assert(samples@.take(k as int) =~= samples@.take(k as int));
        }
        k = k + 1;
    }
    r
}

/// Decodes a block of sample lines into its triples: one per line, in
/// order. The first line that does not decode ends the reading, with its
/// number.
pub fn sample_triples(input: &str) -> (r: Result<Vec<Triple>, ParseError>)
    ensures
        r is Ok <==> !(input@.len() > 0 && input@.last() != '\n') && forall|i: int|
            0 <= i < split_lines(input@).len() ==> sample_fits(#[trigger] split_lines(input@)[i]),
        r matches Err(e) ==> e.line >= 1,
        r matches Ok(triples) ==> triples@.len() == newline_count(input@),
        r matches Ok(triples) ==> exists|samples: Seq<Sample>|
            #![trigger snapshot_triples(samples)]
            samples.len() == split_lines(input@).len() && (forall|i: int|
                0 <= i < samples.len() ==> decodes_as(split_lines(input@)[i], #[trigger] samples[i]))
                && triples@ == snapshot_triples(samples),
{
    match parse_samples(input) {
        Ok(samples) => {
            let triples = triples_of(&samples);
            assert(triples@ =~= snapshot_triples(samples@));
            Ok(triples)
        },
        Err(e) => Err(e),
    }
}

/// Each sample line of a snapshot gives exactly one triple: the stream
/// has as many triples as the snapshot has sample lines.
pub proof fn law_one_triple_per_line(samples: Seq<Sample>)
    ensures
        triple_identities(samples).len() == samples.len(),
        forall|i: int|
            0 <= i < samples.len() ==> #[trigger] triple_identities(samples)[i].0 == descriptor_of(
                samples[i].call,
            ),
{
}

} // verus!
