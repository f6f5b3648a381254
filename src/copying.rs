use crate::model::{step, whole_of, Step};
use vstd::prelude::*;
use vstd::std_specs::iter::IteratorSpec;

verus! {

/// An adaptor around an iterator over `Copy` items that any number of
/// [`CopyReiterator`] cursors can read, each from the start, while the
/// iterator itself is advanced at most once per position.
pub struct CopyReiterate<I: Iterator> {
    iter: I,
    cache: Vec<I::Item>,
    done: bool,
}

/// One cursor over a [`CopyReiterate`]: only a position, so it can be created
/// and dropped freely without touching the shared state.
pub struct CopyReiterator {
    curr: usize,
}

impl<I: Iterator> CopyReiterate<I> where I::Item: Copy {
    /// The items pulled from the source so far, in order.
    pub closed spec fn cached(&self) -> Seq<I::Item> {
        self.cache@
    }

    /// The source in its current state.
    pub closed spec fn source(&self) -> I {
        self.iter
    }

    /// Whether the source has answered `None` once; it is never pulled again.
    pub closed spec fn exhausted(&self) -> bool {
        self.done
    }

    /// Wraps `iter`; nothing is pulled yet.
    pub fn new(iter: I) -> (r: Self)
        ensures
            r.cached() == Seq::<I::Item>::empty(),
            !r.exhausted(),
            r.source() == iter,
    {
        CopyReiterate { iter, cache: Vec::new(), done: false }
    }

    /// A fresh cursor at position 0.
    pub fn into_iter(&self) -> (r: CopyReiterator)
        ensures
            r.pos() == 0,
    {
        CopyReiterator { curr: 0 }
    }

    /// How many items have been pulled from the source.
    pub fn frontier(&self) -> (r: usize)
        ensures
            r == self.cached().len(),
    {
        self.cache.len()
    }

    /// Whether the source has reported its end.
    pub fn is_exhausted(&self) -> (r: bool)
        ensures
            r == self.exhausted(),
    {
        self.done
    }
}

impl CopyReiterator {
    /// The index of the next item this cursor hands out.
    pub closed spec fn pos(&self) -> nat {
        self.curr as nat
    }

    /// Hands out the next item for this cursor, pulling the source only when
    /// the cursor stands at the frontier.
    pub fn next<I: Iterator>(&mut self, owner: &mut CopyReiterate<I>) -> (r: Option<I::Item>)
        where I::Item: Copy,
        ensures
            // cache hit: nothing shared changes
            old(self).pos() < old(owner).cached().len() ==> {
                &&& r == Some(old(owner).cached()[old(self).pos() as int])
                &&& *final(owner) == *old(owner)
                &&& final(self).pos() == old(self).pos() + 1
            },
            // frontier pull: one item pulled, appended if there was one
            old(self).pos() == old(owner).cached().len() && !old(owner).exhausted() ==> {
                &&& (match r {
                    Some(x) => final(owner).cached() == old(owner).cached().push(x)
                        && !final(owner).exhausted()
                        && final(self).pos() == old(self).pos() + 1,
                    None => final(owner).cached() == old(owner).cached()
                        && final(owner).exhausted()
                        && final(self).pos() == old(self).pos(),
                })
            },
            // terminal: nothing pulled, nothing changes
            old(self).pos() > old(owner).cached().len() || (old(self).pos()
                == old(owner).cached().len() && old(owner).exhausted()) ==> {
                &&& r is None
                &&& *final(owner) == *old(owner)
                &&& *final(self) == *old(self)
            },
            // over a source that keeps to the iterator laws, the cursor reads
            // the source's own sequence and that sequence stays the same
            old(owner).source().obeys_prophetic_iter_laws() ==> {
                let whole = whole_of(
                    old(owner).cached(),
                    old(owner).exhausted(),
                    old(owner).source().remaining(),
                );
                &&& final(owner).source().obeys_prophetic_iter_laws()
                &&& whole_of(
                    final(owner).cached(),
                    final(owner).exhausted(),
                    final(owner).source().remaining(),
                ) == whole
                &&& step(whole, old(owner).cached().len(), old(owner).exhausted(), old(self).pos())
                    == (Step {
                    frontier: final(owner).cached().len(),
                    exhausted: final(owner).exhausted(),
                    pos: final(self).pos(),
                    item: r,
                })
            },
    {
        let frontier = owner.cache.len();
        if self.curr < frontier {
            let x = owner.cache[self.curr];
            self.curr = self.curr + 1;
            Some(x)
        } else if self.curr == frontier && !owner.done {
            let pulled = owner.iter.next();
            match pulled {
                Some(x) => {
                    owner.cache.push(x);
                    self.curr = owner.cache.len();
                    proof {
                        let rest = old(owner).iter.remaining();
                        if old(owner).iter.obeys_prophetic_iter_laws() {
                            assert(old(owner).cache@ + rest =~= owner.cache@ + owner.iter.remaining());
                        }
                    }
                },
                None => {
                    owner.done = true;
                    proof {
                        if old(owner).iter.obeys_prophetic_iter_laws() {
                            assert(old(owner).cache@ + old(owner).iter.remaining() =~= owner.cache@);
                        }
                    }
                },
            }
            pulled
        } else {
            None
        }
    }
}

} // verus!
