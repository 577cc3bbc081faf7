//! An adapter that hands out every item of a sequence together with the
//! item behind it.

use vstd::prelude::*;
use vstd::std_specs::iter::IteratorSpec;

verus! {

/// Wraps an iterator and yields each of its items together with a copy of
/// the one behind it: one pair for every item, with nothing in second
/// place only for the last.
///
/// The items that are still to come are `head`, if there is one, and then
/// what is left in `iter`.
pub struct LookaheadIter<I: Iterator> {
    pub iter: I,
    pub head: Option<I::Item>,
}

impl<I: Iterator> LookaheadIter<I> where I::Item: Clone {
    /// An adapter over the items of `iter`.
    pub fn new(iter: I) -> (r: Self)
        ensures
            r.iter.obeys_prophetic_iter_laws() == iter.obeys_prophetic_iter_laws(),
            iter.obeys_prophetic_iter_laws() ==> if iter.remaining().len() == 0 {
                r.head is None
            } else {
                r.head == Some(iter.remaining()[0]) && r.iter.remaining()
                    == iter.remaining().drop_first()
            },
    {
        let mut iter = iter;
        let head = iter.next();
        LookaheadIter { iter, head }
    }

    /// The next item and a copy of the one behind it. The item behind it
    /// is the next item of the next call.
    pub fn next(&mut self) -> (r: Option<(I::Item, Option<I::Item>)>)
        ensures
            final(self).iter.obeys_prophetic_iter_laws() == old(self).iter.obeys_prophetic_iter_laws(),
            match old(self).head {
                None => r is None && final(self).head is None,
                Some(item) => r matches Some((first, _)) && first == item,
            },
            old(self).head is Some && old(self).iter.obeys_prophetic_iter_laws() ==> if old(self).iter.remaining().len() == 0 {
                r matches Some((_, None)) && final(self).head is None
            } else {
                r matches Some((_, Some(second))) && cloned(old(self).iter.remaining()[0], second)
                    && final(self).head == Some(old(self).iter.remaining()[0]) && final(self).iter.remaining() == old(self).iter.remaining().drop_first()
            },
    {
        let first = match self.head.take() {
            Some(first) => first,
            None => {
                return None;
            },
        };
        let behind = self.iter.next();
        let second = match &behind {
            Some(item) => Some(item.clone()),
            None => None,
        };
        self.head = behind;
        Some((first, second))
    }
}

} // verus!
