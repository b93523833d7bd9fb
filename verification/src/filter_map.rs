//! An adapter over an iterator that is `filter_map` and `take_while` in
//! one: the function says of each item whether it yields a value, yields
//! nothing, or ends the iteration.

use vstd::prelude::*;
use vstd::std_specs::iter::IteratorSpec;

verus! {

/// What the function says of one item.
pub enum FMTOption<T> {
    /// The item yields this value.
    Yield(T),
    /// The item yields nothing.
    Skip,
    /// The iteration ends here.
    Terminate,
}

/// The adapter: an iterator, the function, and whether the function has
/// ended the iteration.
pub struct FilterMapTerminate<I, F> {
    pub iter: I,
    pub f: F,
    pub terminated: bool,
}

impl<I, F> FilterMapTerminate<I, F> {
    /// An adapter that has not yet looked at an item.
    pub fn new(iter: I, f: F) -> (adapter: Self)
        ensures
            adapter.iter == iter,
            adapter.f == f,
            !adapter.terminated,
    {
        FilterMapTerminate { iter, f, terminated: false }
    }
}

impl<I: Iterator, F> FilterMapTerminate<I, F> {
    /// The next value, if there is one. Items that yield nothing are passed
    /// over. Once the function has ended the iteration no item is looked at
    /// any more.
    pub fn next<T>(&mut self) -> (ret: Option<T>) where F: Fn(I::Item) -> FMTOption<T>
        requires
            old(self).iter.obeys_prophetic_iter_laws(),
            old(self).iter.decrease() is Some,
            forall|i: int|
                0 <= i < old(self).iter.remaining().len() ==> call_requires(
                    old(self).f,
                    (#[trigger] old(self).iter.remaining()[i],),
                ),
        ensures
            final(self).f == old(self).f,
            final(self).iter.obeys_prophetic_iter_laws(),
            final(self).iter.decrease() is Some,
            old(self).terminated ==> ret is None && final(self).terminated,
            old(self).terminated ==> final(self).iter.remaining() == old(self).iter.remaining(),
            !old(self).terminated ==> ({
                let items = old(self).iter.remaining();
                let used = items.len() - final(self).iter.remaining().len();
                &&& 0 <= used <= items.len()
                &&& final(self).iter.remaining() == items.skip(used)
                &&& forall|j: int|
                    0 <= j < used - 1 ==> call_ensures(
                        old(self).f,
                        (#[trigger] items[j],),
                        FMTOption::Skip,
                    )
                &&& match ret {
                    Some(value) => used >= 1 && !final(self).terminated && call_ensures(
                        old(self).f,
                        (items[used - 1],),
                        FMTOption::Yield(value),
                    ),
                    None => if final(self).terminated {
                        used >= 1 && call_ensures(
                            old(self).f,
                            (items[used - 1],),
                            FMTOption::Terminate,
                        )
                    } else {
                        used == items.len() && (used >= 1 ==> call_ensures(
                            old(self).f,
                            (items[used - 1],),
                            FMTOption::Skip,
                        ))
                    },
                }
            }),
    {
        if self.terminated {
            return None;
        }
        let ghost items = self.iter.remaining();
        loop
            invariant
                self.f == old(self).f,
                !old(self).terminated,
                !self.terminated,
                self.iter.obeys_prophetic_iter_laws(),
                self.iter.decrease() is Some,
                items == old(self).iter.remaining(),
                0 <= items.len() - self.iter.remaining().len() <= items.len(),
                self.iter.remaining() == items.skip(items.len() - self.iter.remaining().len()),
                forall|i: int| 0 <= i < items.len() ==> call_requires(self.f, (#[trigger] items[i],)),
                forall|j: int|
                    0 <= j < items.len() - self.iter.remaining().len() ==> call_ensures(
                        self.f,
                        (#[trigger] items[j],),
                        FMTOption::Skip,
                    ),
            decreases self.iter.decrease()->0,
        {
            let ghost left = self.iter.remaining();
            let ghost used = items.len() - left.len();
            match self.iter.next() {
                Some(item) => {
                    proof {
                        assert(left[0] == items[used]);
                        assert(self.iter.remaining() =~= items.skip(used + 1));
                    }
                    match (self.f)(item) {
                        FMTOption::Yield(val) => {
                            return Some(val);
                        },
                        FMTOption::Skip => {},
                        FMTOption::Terminate => {
                            self.terminated = true;
                            return None;
                        },
                    }
                },
                None => {
                    return None;
                },
            }
        }
    }
}

/// An adapter over `iter` under `f`.
pub fn filter_map_terminate<I, F>(iter: I, f: F) -> (adapter: FilterMapTerminate<I, F>)
    ensures
        adapter.iter == iter,
        adapter.f == f,
        !adapter.terminated,
{
    FilterMapTerminate::new(iter, f)
}

} // verus!
