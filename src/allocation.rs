//! Allocations: how many bytes were observed, and where.
use vstd::prelude::*;

use crate::text::push_char;

verus! {

/// `a + b`, or `u64::MAX` when the sum exceeds it: how byte counts add up.
pub open spec fn sat_add(a: u64, b: int) -> u64 {
    if a + b <= u64::MAX {
        (a + b) as u64
    } else {
        u64::MAX
    }
}

/// Where an allocation was observed.
#[derive(Debug, Clone, PartialEq, Eq)]
pub enum Location {
    /// A symbol or its description.
    Described(String),
    /// The profiler's "N places below threshold" aggregate: the count of
    /// places and the threshold, as the percentage token of the input.
    Omitted(usize, String),
}

/// Bytes observed at a location. A value with no identity: allocations on
/// the same edge are summed, never overwritten.
#[derive(Debug, Clone, PartialEq, Eq)]
pub struct Allocation {
    pub bytes: usize,
    pub location: Location,
}


impl Allocation {
    /// A copy of this allocation.
    pub fn copied(&self) -> (r: Allocation)
        ensures
            r == *self,
    {
        let location = match &self.location {
            Location::Described(t) => Location::Described(t.clone()),
            Location::Omitted(n, t) => Location::Omitted(*n, t.clone()),
        };
        Allocation { bytes: self.bytes, location }
    }
}

/// The descriptions among `ls`, each once, in the order first seen.
pub open spec fn distinct_descriptions(ls: Seq<Location>) -> Seq<Seq<char>>
    decreases ls.len(),
{
    if ls.len() == 0 {
        Seq::empty()
    } else {
        let d = distinct_descriptions(ls.drop_last());
        match ls.last() {
            Location::Described(t) => if d.contains(t@) {
                d
            } else {
                d.push(t@)
            },
            Location::Omitted(_, _) => d,
        }
    }
}

/// The place counts of the omitted locations among `ls`, summed (at most
/// `usize::MAX`).
pub open spec fn omitted_total(ls: Seq<Location>) -> nat
    decreases ls.len(),
{
    if ls.len() == 0 {
        0
    } else {
        let n = omitted_total(ls.drop_last());
        match ls.last() {
            Location::Omitted(c, _) => if n + c <= usize::MAX {
                (n + c) as nat
            } else {
                usize::MAX as nat
            },
            Location::Described(_) => n,
        }
    }
}

/// `ts` joined, with ` / ` between two of them.
pub open spec fn joined(ts: Seq<Seq<char>>) -> Seq<char>
    decreases ts.len(),
{
    if ts.len() == 0 {
        Seq::empty()
    } else if ts.len() == 1 {
        ts[0]
    } else {
        joined(ts.drop_last()) + " / "@ + ts.last()
    }
}

/// The locations merged: the described ones as one description, or the
/// omitted ones as one aggregate when they all share one threshold. `None`
/// when `ls` is empty, when it mixes both kinds, or when the thresholds
/// differ.
pub open spec fn merged(ls: Seq<Location>) -> Option<(bool, Seq<char>, nat)> {
    let has_described = exists|i: int| 0 <= i < ls.len() && (#[trigger] ls[i]) is Described;
    let has_omitted = exists|i: int| 0 <= i < ls.len() && (#[trigger] ls[i]) is Omitted;
    if ls.len() == 0 || (has_described && has_omitted) {
        None
    } else if has_omitted {
        let t = ls[0]->Omitted_1@;
        if forall|i: int| 0 <= i < ls.len() ==> (#[trigger] ls[i])->Omitted_1@ == t {
            Some((false, t, omitted_total(ls)))
        } else {
            None
        }
    } else {
        Some((true, joined(distinct_descriptions(ls)), 0))
    }
}

/// What `merged` gives, as a location.
pub open spec fn location_matches(l: Location, m: (bool, Seq<char>, nat)) -> bool {
    match l {
        Location::Described(t) => m.0 && t@ == m.1,
        Location::Omitted(c, t) => !m.0 && t@ == m.1 && c == m.2,
    }
}

fn append_str(s: &mut String, t: &str)
    ensures
        final(s)@ == old(s)@ + t@,
{
    let cs = crate::text::chars_of(t);
    let mut k: usize = 0;
    while k < cs.len()
        invariant
            k <= cs@.len(),
            cs@ == t@,
            s@ == old(s)@ + cs@.take(k as int),
        decreases cs@.len() - k,
    {
        push_char(s, cs[k]);
        assert(cs@.take(k + 1) == cs@.take(k as int).push(cs@[k as int]));
        assert(old(s)@ + cs@.take(k + 1) =~= (old(s)@ + cs@.take(k as int)).push(cs@[k as int]));
        k = k + 1;
    }
    assert(cs@.take(k as int) == cs@);
}

pub open spec fn views(ds: Seq<String>) -> Seq<Seq<char>> {
    ds.map_values(|d: String| d@)
}

/// Merges the locations of the allocations of one edge (see `merged`).
pub fn merge_locations(ls: &Vec<Location>) -> (r: Option<Location>)
    ensures
        r is Some <==> merged(ls@) is Some,
        r is Some ==> location_matches(r.unwrap(), merged(ls@).unwrap()),
{
    if ls.len() == 0 {
        return None;
    }
    let mut descriptions: Vec<String> = Vec::new();
    let mut total: usize = 0;
    let mut threshold: Option<String> = None;
    let mut described = false;
    let mut omitted = false;
    let mut agree = true;
    let mut k: usize = 0;
    while k < ls.len()
        invariant
            k <= ls@.len(),
            ls@.len() > 0,
            described == exists|i: int| 0 <= i < k && (#[trigger] ls@[i]) is Described,
            omitted == exists|i: int| 0 <= i < k && (#[trigger] ls@[i]) is Omitted,
            total == omitted_total(ls@.take(k as int)),
            views(descriptions@) == distinct_descriptions(ls@.take(k as int)),
            omitted <==> threshold is Some,
            !omitted ==> agree,
            omitted && !described ==> threshold.unwrap()@ == ls@[0]->Omitted_1@,
            omitted && !described ==> (agree <==> forall|i: int| 0 <= i < k ==> (#[trigger] ls@[i])->Omitted_1@ == threshold.unwrap()@),
        decreases ls@.len() - k,
    {
        let ghost take_k = ls@.take(k as int);
        assert(ls@.take(k + 1).drop_last() == take_k);
        assert(ls@.take(k + 1).last() == ls@[k as int]);
        match &ls[k] {
            Location::Described(t) => {
                let mut seen = false;
                let mut j: usize = 0;
                while j < descriptions.len()
                    invariant
                        j <= descriptions@.len(),
                        seen == exists|m: int| 0 <= m < j && (#[trigger] descriptions@[m])@ == t@,
                    decreases descriptions@.len() - j,
                {
                    if descriptions[j].eq(t) {
                        seen = true;
                    }
                    j = j + 1;
                }
                proof {
                    let d = distinct_descriptions(take_k);
                    if seen {
                        let m = choose|m: int| 0 <= m < j && (#[trigger] descriptions@[m])@ == t@;
                        assert(views(descriptions@)[m] == t@);
                        assert(d.contains(t@));
                    } else {
                        if d.contains(t@) {
                            let m = choose|m: int| 0 <= m < d.len() && d[m] == t@;
                            assert(views(descriptions@)[m] == descriptions@[m]@);
                        }
                    }
                }
                if !seen {
                    let ghost before = descriptions@;
                    descriptions.push(t.clone());
                    assert(views(descriptions@) =~= views(before).push(t@));
                }
                described = true;
            },
            Location::Omitted(c, t) => {
                total = if total <= usize::MAX - *c {
                    total + *c
                } else {
                    usize::MAX
                };
                let ghost was = threshold;
                match &threshold {
                    Some(first) => {
                        if !first.eq(t) {
                            agree = false;
                        }
                    },
                    None => {
                        threshold = Some(t.clone());
                    },
                }
                omitted = true;
                proof {
                    if !described && was is Some {
                        let th = threshold.unwrap()@;
                        assert(ls@[k as int]->Omitted_1@ == t@);
                        if forall|i: int| 0 <= i < k ==> (#[trigger] ls@[i])->Omitted_1@ == th {
                            if t@ == th {
                                assert forall|i: int| 0 <= i < k + 1 implies (#[trigger] ls@[i])->Omitted_1@ == th by {}
                            }
                        }
                    }
                    if !described {
                        if was is None {
                            assert forall|i: int| 0 <= i < k implies !((#[trigger] ls@[i]) is Omitted) by {}
                            assert forall|i: int| 0 <= i < k implies !((#[trigger] ls@[i]) is Described) by {}
                            assert(k == 0);
                        }
                    }
                }
            },
        }
        k = k + 1;
    }
    assert(ls@.take(k as int) == ls@);
    if described && omitted {
        return None;
    }
    if omitted {
        if !agree {
            return None;
        }
        return match threshold {
            Some(t) => Some(Location::Omitted(total, t)),
            None => None,
        };
    }
    proof {
        assert(exists|i: int| 0 <= i < ls@.len() && (#[trigger] ls@[i]) is Described) by {
            if !(ls@[0] is Described) {
                assert(ls@[0] is Omitted);
            }
        }
    }
    let mut merged_description = String::new();
    let mut j: usize = 0;
    while j < descriptions.len()
        invariant
            j <= descriptions@.len(),
            merged_description@ == joined(views(descriptions@.take(j as int))),
        decreases descriptions@.len() - j,
    {
        let ghost before = views(descriptions@.take(j as int));
        assert(views(descriptions@.take(j + 1)) =~= before.push(descriptions@[j as int]@));
        if j > 0 {
            append_str(&mut merged_description, " / ");
        } else {
            assert(before.len() == 0);
        }
        append_str(&mut merged_description, descriptions[j].as_str());
        proof {
            let after = before.push(descriptions@[j as int]@);
            assert(after.drop_last() == before);
            if j == 0 {
                assert(joined(after) == after[0]);
                assert(merged_description@ =~= Seq::<char>::empty() + descriptions@[j as int]@);
            }
        }
        j = j + 1;
    }
    assert(descriptions@.take(j as int) == descriptions@);
    Some(Location::Described(merged_description))
}

} // verus!
