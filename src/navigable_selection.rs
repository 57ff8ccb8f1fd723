//! An ordered list with at most one selected item. Every movement clamps at
//! the ends; an empty list has no selection and does not move.
use vstd::prelude::*;

verus! {

pub struct NavigableSelection<T> {
    items: Vec<T>,
    selected: Option<usize>,
}

impl<T> NavigableSelection<T> {
    /// The items, in order.
    pub closed spec fn spec_items(&self) -> Seq<T> {
        self.items@
    }

    /// The position of the selected item.
    pub closed spec fn spec_selected(&self) -> Option<usize> {
        self.selected
    }

    /// The selection of a list with `len` items when nothing has moved yet:
    /// the first item, if any.
    pub open spec fn initial_selection(len: nat) -> Option<usize> {
        if len > 0 {
            Some(0usize)
        } else {
            None
        }
    }

    /// A list is selected exactly when it is not empty, and within bounds.
    pub open spec fn wf(&self) -> bool {
        &&& self.spec_items().len() <= usize::MAX
        &&& match self.spec_selected() {
            Some(i) => i < self.spec_items().len(),
            None => self.spec_items().len() == 0,
        }
    }

    /// What `select_nth_next(n)` leaves: `n` items further, at most the last.
    pub open spec fn nth_next(&self, n: usize) -> Option<usize> {
        match self.spec_selected() {
            Some(i) => Some(
                if i + n < self.spec_items().len() {
                    (i + n) as usize
                } else {
                    (self.spec_items().len() - 1) as usize
                },
            ),
            None => None,
        }
    }

    /// What `select_nth_previous(n)` leaves: `n` items back, at least the
    /// first.
    pub open spec fn nth_previous(&self, n: usize) -> Option<usize> {
        match self.spec_selected() {
            Some(i) => Some(
                if i >= n {
                    (i - n) as usize
                } else {
                    0usize
                },
            ),
            None => None,
        }
    }

    pub fn new(items: Vec<T>) -> (r: NavigableSelection<T>)
        ensures
            r.wf(),
            r.spec_items() == items@,
            r.spec_selected() == Self::initial_selection(items@.len()),
    {
        let selected = if items.len() > 0 {
            Some(0)
        } else {
            None
        };
        NavigableSelection { items, selected }
    }

    pub fn select_first(&mut self)
        requires
            old(self).wf(),
        ensures
            final(self).wf(),
            final(self).spec_items() == old(self).spec_items(),
            final(self).spec_selected() == Self::initial_selection(old(self).spec_items().len()),
    {
        if self.selected.is_some() {
            self.selected = Some(0);
        }
    }

    pub fn select_last(&mut self)
        requires
            old(self).wf(),
        ensures
            final(self).wf(),
            final(self).spec_items() == old(self).spec_items(),
            final(self).spec_selected() == (if old(self).spec_items().len() > 0 {
                Some((old(self).spec_items().len() - 1) as usize)
            } else {
                None
            }),
    {
        if self.selected.is_some() {
            self.selected = Some(self.items.len() - 1);
        }
    }

    pub fn select_next(&mut self)
        requires
            old(self).wf(),
        ensures
            final(self).wf(),
            final(self).spec_items() == old(self).spec_items(),
            final(self).spec_selected() == old(self).nth_next(1),
    {
        self.select_nth_next(1)
    }

    pub fn select_previous(&mut self)
        requires
            old(self).wf(),
        ensures
            final(self).wf(),
            final(self).spec_items() == old(self).spec_items(),
            final(self).spec_selected() == old(self).nth_previous(1),
    {
        self.select_nth_previous(1)
    }

    pub fn select_nth_next(&mut self, n: usize)
        requires
            old(self).wf(),
        ensures
            final(self).wf(),
            final(self).spec_items() == old(self).spec_items(),
            final(self).spec_selected() == old(self).nth_next(n),
    {
        if let Some(i) = self.selected {
            let room = self.items.len() - 1 - i;
            let step = if room < n {
                room
            } else {
                n
            };
            self.selected = Some(i + step);
        }
    }

    pub fn select_nth_previous(&mut self, n: usize)
        requires
            old(self).wf(),
        ensures
            final(self).wf(),
            final(self).spec_items() == old(self).spec_items(),
            final(self).spec_selected() == old(self).nth_previous(n),
    {
        if let Some(i) = self.selected {
            let step = if i < n {
                i
            } else {
                n
            };
            self.selected = Some(i - step);
        }
    }

    pub fn items(&self) -> (r: &[T])
        ensures
            r@ == self.spec_items(),
    {
        self.items.as_slice()
    }

    pub fn selected_index(&self) -> (r: Option<usize>)
        ensures
            r == self.spec_selected(),
    {
        self.selected
    }

    pub fn selected_item(&self) -> (r: Option<&T>)
        requires
            self.wf(),
        ensures
            r is Some <==> self.spec_selected() is Some,
            r is Some ==> *r.unwrap() == self.spec_items()[self.spec_selected().unwrap() as int],
    {
        match self.selected {
            Some(i) => Some(&self.items[i]),
            None => None,
        }
    }
}

/// Selecting the last item and then moving any number of items further
/// leaves the last item selected; on an empty list both leave no selection.
pub proof fn law_selection_clamps_at_end<T>(
    l0: NavigableSelection<T>,
    l1: NavigableSelection<T>,
    n: usize,
    l2: NavigableSelection<T>,
)
    requires
        l0.wf(),
        l1.spec_items() == l0.spec_items(),
        l1.spec_selected() == (if l0.spec_items().len() > 0 {
            Some((l0.spec_items().len() - 1) as usize)
        } else {
            None::<usize>
        }),
        l2.spec_items() == l1.spec_items(),
        l2.spec_selected() == l1.nth_next(n),
    ensures
        l0.spec_items().len() > 0 ==> l2.spec_selected() == Some((l0.spec_items().len() - 1) as usize),
        l0.spec_items().len() == 0 ==> l2.spec_selected() is None,
        l2.wf(),
{
}

/// On an empty list no movement selects anything.
pub proof fn law_empty_selection_stays_empty<T>(l: NavigableSelection<T>, n: usize)
    requires
        l.wf(),
        l.spec_items().len() == 0,
    ensures
        l.spec_selected() is None,
        l.nth_next(n) is None,
        l.nth_previous(n) is None,
        NavigableSelection::<T>::initial_selection(l.spec_items().len()) is None,
{
}

} // verus!
