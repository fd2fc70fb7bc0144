//! The list of receivers of terminal input. A receiver is held weakly: it
//! may have gone away since it registered, and then it leaves the list the
//! next time input arrives.

use vstd::prelude::*;

verus! {

/// The positions, in order, of the receivers among the first `n` that are
/// still alive.
pub open spec fn live_indices(alive: Seq<bool>, n: int) -> Seq<int>
    decreases n,
{
    if n <= 0 {
        Seq::empty()
    } else if alive[n - 1] {
        live_indices(alive, n - 1).push(n - 1)
    } else {
        live_indices(alive, n - 1)
    }
}

/// The receivers among the first `n` of `list` that are still alive, in
/// order.
pub open spec fn live_receivers<W>(list: Seq<W>, alive: Seq<bool>, n: int) -> Seq<W>
    decreases n,
{
    if n <= 0 {
        Seq::empty()
    } else if alive[n - 1] {
        live_receivers(list, alive, n - 1).push(list[n - 1])
    } else {
        live_receivers(list, alive, n - 1)
    }
}

/// The receivers of terminal input, in the order they registered.
pub struct InputReciverList<W> {
    pub list: Vec<W>,
}

impl<W> InputReciverList<W> {
    /// An empty list.
    pub fn new() -> (r: Self)
        ensures
            r.list@ == Seq::<W>::empty(),
    {
        InputReciverList { list: Vec::new() }
    }

    /// Adds a receiver at the end.
    pub fn register(&mut self, input_client: W)
        ensures
            final(self).list@ == old(self).list@.push(input_client),
    {
        self.list.push(input_client);
    }

    /// Which receivers get a piece of input, given whether each is still
    /// alive: the live ones, in order, are called (their positions in the
    /// list as it was are handed back) and stay; the others leave the list.
    pub fn receive_input(&mut self, alive: &[bool]) -> (r: Vec<usize>)
        requires
            alive@.len() == old(self).list@.len(),
        ensures
            r@.len() == live_indices(alive@, alive@.len() as int).len(),
            forall|i: int| 0 <= i < r@.len() ==> #[trigger] r@[i] as int == live_indices(alive@, alive@.len() as int)[i],
            final(self).list@ == live_receivers(old(self).list@, alive@, alive@.len() as int),
    {
        let mut kept: Vec<W> = Vec::new();
        let mut called: Vec<usize> = Vec::new();
        let mut old_list: Vec<W> = Vec::new();
        std::mem::swap(&mut old_list, &mut self.list);
        let ghost l0 = old_list@;
        let mut rest = old_list;
        let mut i: usize = 0;
        while i < alive.len()
            invariant
                alive@.len() == l0.len(),
                i <= alive@.len(),
                rest@ == l0.subrange(i as int, l0.len() as int),
                kept@ == live_receivers(l0, alive@, i as int),
                called@.len() == live_indices(alive@, i as int).len(),
                forall|k: int| 0 <= k < called@.len() ==> #[trigger] called@[k] as int == live_indices(alive@, i as int)[k],
            decreases alive@.len() - i,
        {
            let w = rest.remove(0);
            proof {
                assert(w == l0[i as int]);
            }
            if alive[i] {
                kept.push(w);
                called.push(i);
            }
            i += 1;
        }
        self.list = kept;
        called
    }
}

} // verus!
