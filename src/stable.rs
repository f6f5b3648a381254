use crate::model::{step, whole_of, Step};
use elsa::FrozenVec;
use vstd::prelude::*;
use vstd::std_specs::iter::IteratorSpec;

verus! {

#[verifier::external_type_specification]
#[verifier::external_body]
#[verifier::reject_recursive_types(T)]
pub struct ExFrozenVec<T>(FrozenVec<T>);

/// The strings held by a `FrozenVec<String>`, in order.
pub uninterp spec fn frozen_strings(v: FrozenVec<String>) -> Seq<Seq<char>>;

/// Relies on `FrozenVec::new`: the new vector holds nothing.
#[verifier::external_body]
fn frozen_new() -> (r: FrozenVec<String>)
    ensures
        frozen_strings(r) == Seq::<Seq<char>>::empty(),
{
    FrozenVec::new()
}

/// Relies on `FrozenVec::push`: the string is appended at the back and the
/// earlier entries stay as they were.
#[verifier::external_body]
fn frozen_push(v: &mut FrozenVec<String>, s: String)
    ensures
        frozen_strings(*final(v)) == frozen_strings(*old(v)).push(s@),
{
    v.push(s)
}

/// Relies on `FrozenVec::len`: the number of entries.
#[verifier::external_body]
fn frozen_len(v: &FrozenVec<String>) -> (r: usize)
    ensures
        r == frozen_strings(*v).len(),
{
    v.len()
}

/// Relies on `FrozenVec::get`: a borrow of the entry at `index`, or `None`
/// past the end.
#[verifier::external_body]
fn frozen_get(v: &FrozenVec<String>, index: usize) -> (r: Option<&str>)
    ensures
        index < frozen_strings(*v).len() ==> str_view(r) == Some(frozen_strings(*v)[index as int]),
        index >= frozen_strings(*v).len() ==> r is None,
{
    v.get(index)
}

/// The characters of a handed-out string, if any.
pub open spec fn str_view(r: Option<&str>) -> Option<Seq<char>> {
    match r {
        Some(s) => Some(s@),
        None => None,
    }
}

/// The characters of each string in `items`.
pub open spec fn strings_view(items: Seq<String>) -> Seq<Seq<char>> {
    items.map_values(|s: String| s@)
}

/// An adaptor around an iterator of owned strings that any number of
/// [`Reiterator`] cursors can read, each from the start, while the iterator
/// itself is advanced at most once per position. The strings are kept in
/// append-only storage that never moves an entry once it is stored.
pub struct Reiterate<I: Iterator<Item = String>> {
    iter: I,
    cache: FrozenVec<String>,
    done: bool,
}

/// One cursor over a [`Reiterate`]: only a position.
pub struct Reiterator {
    curr: usize,
}

impl<I: Iterator<Item = String>> Reiterate<I> {
    /// The strings pulled from the source so far, in order.
    pub closed spec fn cached(&self) -> Seq<Seq<char>> {
        frozen_strings(self.cache)
    }

    /// The source in its current state.
    pub closed spec fn source(&self) -> I {
        self.iter
    }

    /// Whether the source has answered `None` once; it is never pulled again.
    pub closed spec fn exhausted(&self) -> bool {
        self.done
    }

    /// Wraps `iter`; nothing is pulled yet.
    pub fn new(iter: I) -> (r: Self)
        ensures
            r.cached() == Seq::<Seq<char>>::empty(),
            !r.exhausted(),
            r.source() == iter,
    {
        Reiterate { iter, cache: frozen_new(), done: false }
    }

    /// A fresh cursor at position 0.
    pub fn into_iter(&self) -> (r: Reiterator)
        ensures
            r.pos() == 0,
    {
        Reiterator { curr: 0 }
    }

    /// How many strings have been pulled from the source.
    pub fn frontier(&self) -> (r: usize)
        ensures
            r == self.cached().len(),
    {
        frozen_len(&self.cache)
    }

    /// Whether the source has reported its end.
    pub fn is_exhausted(&self) -> (r: bool)
        ensures
            r == self.exhausted(),
    {
        self.done
    }
}

impl Reiterator {
    /// The index of the next string this cursor hands out.
    pub closed spec fn pos(&self) -> nat {
        self.curr as nat
    }

    /// Hands out the next string for this cursor, pulling the source only
    /// when the cursor stands at the frontier.
    pub fn next<'a, I: Iterator<Item = String>>(&mut self, owner: &'a mut Reiterate<I>) -> (r: Option<&'a str>)
        ensures
            old(self).pos() < old(owner).cached().len() ==> {
                &&& str_view(r) == Some(old(owner).cached()[old(self).pos() as int])
                &&& *final(owner) == *old(owner)
                &&& final(self).pos() == old(self).pos() + 1
            },
            // frontier pull: one string pulled, appended if there was one
            old(self).pos() == old(owner).cached().len() && !old(owner).exhausted() ==> {
                &&& (match r {
                    Some(x) => final(owner).cached() == old(owner).cached().push(x@)
                        && !final(owner).exhausted()
                        && final(self).pos() == old(self).pos() + 1,
                    None => final(owner).cached() == old(owner).cached()
                        && final(owner).exhausted()
                        && final(self).pos() == old(self).pos(),
                })
            },
            // terminal: nothing pulled, nothing changes
            old(self).pos() > old(owner).cached().len() || (old(self).pos()
                == old(owner).cached().len() && old(owner).exhausted()) ==> {
                &&& r is None
                &&& *final(owner) == *old(owner)
                &&& *final(self) == *old(self)
            },
            // over a source that keeps to the iterator laws, the cursor reads
            // the source's own sequence and that sequence stays the same
            old(owner).source().obeys_prophetic_iter_laws() ==> {
                let whole = whole_of(
                    old(owner).cached(),
                    old(owner).exhausted(),
                    strings_view(old(owner).source().remaining()),
                );
                &&& final(owner).source().obeys_prophetic_iter_laws()
                &&& whole_of(
                    final(owner).cached(),
                    final(owner).exhausted(),
                    strings_view(final(owner).source().remaining()),
                ) == whole
                &&& step(whole, old(owner).cached().len(), old(owner).exhausted(), old(self).pos())
                    == (Step {
                    frontier: final(owner).cached().len(),
                    exhausted: final(owner).exhausted(),
                    pos: final(self).pos(),
                    item: str_view(r),
                })
            },
    {
        let frontier = frozen_len(&owner.cache);
        if self.curr < frontier {
            let i = self.curr;
            self.curr = self.curr + 1;
            frozen_get(&owner.cache, i)
        } else if self.curr == frontier && !owner.done {
            let pulled = owner.iter.next();
            match pulled {
                Some(x) => {
                    proof {
                        let rest = old(owner).iter.remaining();
                        if old(owner).iter.obeys_prophetic_iter_laws() {
                            assert(strings_view(rest) =~= seq![x@] + strings_view(owner.iter.remaining()));
                        }
                    }
                    frozen_push(&mut owner.cache, x);
                    self.curr = frozen_len(&owner.cache);
                    proof {
                        if old(owner).iter.obeys_prophetic_iter_laws() {
                            assert(frozen_strings(old(owner).cache) + strings_view(old(owner).iter.remaining())
                                =~= frozen_strings(owner.cache) + strings_view(owner.iter.remaining()));
                        }
                    }
                    frozen_get(&owner.cache, frontier)
                },
                None => {
                    owner.done = true;
                    proof {
                        if old(owner).iter.obeys_prophetic_iter_laws() {
                            assert(frozen_strings(old(owner).cache) + strings_view(old(owner).iter.remaining())
                                =~= frozen_strings(owner.cache));
                        }
                    }
                    None
                },
            }
        } else {
            None
        }
    }
}

} // verus!
