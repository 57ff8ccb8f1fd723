//! A sequence of items with an optional first item before them.
use vstd::prelude::*;

use std::collections::VecDeque;

verus! {

/// Hands out `prefix`, when there is one, then the items, in order.
pub struct PrefixedIter<T> {
    prefix: Option<T>,
    items: VecDeque<T>,
}

impl<T> PrefixedIter<T> {
    /// The items still to come, in order.
    pub closed spec fn remaining(&self) -> Seq<T> {
        match self.prefix {
            Some(p) => seq![p] + self.items@,
            None => self.items@,
        }
    }

    pub fn new(prefix: Option<T>, items: VecDeque<T>) -> (r: PrefixedIter<T>)
        ensures
            r.remaining() == match prefix {
                Some(p) => seq![p] + items@,
                None => items@,
            },
    {
        PrefixedIter { prefix, items }
    }

    /// The next item, if any.
    pub fn next(&mut self) -> (r: Option<T>)
        ensures
            old(self).remaining().len() == 0 ==> r is None && final(self).remaining() == old(self).remaining(),
            old(self).remaining().len() > 0 ==> r == Some(old(self).remaining()[0]) && final(self).remaining()
                == old(self).remaining().drop_first(),
    {
        let mut prefix = None;
        core::mem::swap(&mut prefix, &mut self.prefix);
        match prefix {
            Some(p) => {
                assert((seq![p] + self.items@).drop_first() =~= self.items@);
                Some(p)
            },
            None => {
                let r = self.items.pop_front();
                proof {
                    if old(self).remaining().len() > 0 {
                        assert(self.items@ =~= old(self).remaining().drop_first());
                    }
                }
                r
            },
        }
    }
}

/// The items of `items`, with `head` first.
pub fn prefixed<T>(head: T, items: VecDeque<T>) -> (r: PrefixedIter<T>)
    ensures
        r.remaining() == seq![head] + items@,
{
    PrefixedIter::new(Some(head), items)
}

} // verus!
