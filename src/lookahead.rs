//! An iterator adapter that keeps a few items buffered, so that they can
//! be looked at before they are taken.
use vstd::prelude::*;
use std::collections::VecDeque;
use vstd::std_specs::iter::IteratorSpec;

verus! {

broadcast use vstd::std_specs::vecdeque::group_vec_dequeue_axioms;

pub struct Lookahead<I: Iterator> {
    iter: I,
    buffer: VecDeque<I::Item>,
}

impl<I: Iterator> Lookahead<I> {
    /// The items already pulled from the source and not yet taken.
    pub closed spec fn buffered(&self) -> Seq<I::Item> {
        self.buffer@
    }

    /// The underlying iterator.
    pub closed spec fn source(&self) -> I {
        self.iter
    }

    /// Buffers the first `n + 1` items of `iter` (all of them if it has
    /// fewer).
    pub fn new(iter: I, n: usize) -> (r: Self)
        requires
            n < usize::MAX,
        ensures
            iter.obeys_prophetic_iter_laws() ==> {
                &&& r.source().obeys_prophetic_iter_laws()
                &&& r.buffered() + r.source().remaining() == iter.remaining()
                &&& r.buffered().len() == n + 1 || (r.buffered().len() < n + 1 && r.source().remaining().len() == 0)
            },
    {
        let ghost laws = iter.obeys_prophetic_iter_laws();
        let ghost old_rem = iter.remaining();
        let mut iter = iter;
        let mut buffer: VecDeque<I::Item> = VecDeque::new();
        let mut k: usize = 0;
        let mut exhausted = false;
        while k <= n && !exhausted
            invariant
                n < usize::MAX,
                k <= n + 1,
                buffer@.len() == k,
                laws == iter.obeys_prophetic_iter_laws(),
                laws ==> buffer@ + iter.remaining() == old_rem,
                laws && exhausted ==> iter.remaining().len() == 0,
            decreases n + 1 - k + (if exhausted { 0int } else { 1int }),
        {
            match iter.next() {
                Some(x) => {
                    buffer.push_back(x);
                    k = k + 1;
                },
                None => {
                    exhausted = true;
                },
            }
        }
        Lookahead { iter, buffer }
    }

    /// The `i`-th buffered item, without taking it.
    pub fn ahead(&self, i: usize) -> (r: Option<&I::Item>)
        ensures
            r == (if i < self.buffered().len() { Some(&self.buffered()[i as int]) } else { None }),
    {
        if i < self.buffer.len() {
            Some(&self.buffer[i])
        } else {
            None
        }
    }

    /// Gives back the source, without the buffered items.
    pub fn into_inner(self) -> (r: I)
        ensures
            r == self.source(),
    {
        self.iter
    }

    /// Takes the first buffered item and pulls one more from the source;
    /// an exhausted source stays exhausted and the buffer then shrinks.
    pub fn next(&mut self) -> (r: Option<I::Item>)
        ensures
            r == (if old(self).buffered().len() > 0 { Some(old(self).buffered()[0]) } else { None }),
            old(self).source().obeys_prophetic_iter_laws() ==> {
                &&& final(self).source().obeys_prophetic_iter_laws()
                &&& final(self).buffered() == (if old(self).buffered().len() > 0 {
                    old(self).buffered().drop_first()
                } else {
                    old(self).buffered()
                }) + (if old(self).source().remaining().len() > 0 {
                    seq![old(self).source().remaining()[0]]
                } else {
                    Seq::<I::Item>::empty()
                })
                &&& final(self).source().remaining() == (if old(self).source().remaining().len() > 0 {
                    old(self).source().remaining().drop_first()
                } else {
                    old(self).source().remaining()
                })
            },
    {
        let ret = self.buffer.pop_front();
        let ghost mid = self.buffer@;
        proof {
            if old(self).buffer@.len() > 0 {
                assert(mid == old(self).buffer@.drop_first());
            } else {
                assert(mid == old(self).buffer@);
            }
        }
        match self.iter.next() {
            Some(x) => {
                self.buffer.push_back(x);
                proof {
                    if old(self).iter.obeys_prophetic_iter_laws() {
                        assert(self.buffer@ =~= mid + seq![x]);
                    }
                }
            },
            None => {
                proof {
                    if old(self).iter.obeys_prophetic_iter_laws() {
                        assert(self.buffer@ =~= mid + Seq::<I::Item>::empty());
                    }
                }
            },
        }
        ret
    }
}

} // verus!
