//! Filtering of lists in place.

use vstd::prelude::*;

verus! {

/// Keeps what `keep` accepts, in order. `pred` says what it accepts.
pub(crate) fn retain<E, F: Fn(&E) -> bool>(
    list: &mut Vec<E>,
    keep: F,
    Ghost(pred): Ghost<spec_fn(E) -> bool>,
)
    requires
        forall|x: E| call_requires(keep, (&x,)),
        forall|x: E, r: bool| call_ensures(keep, (&x,), r) ==> r == pred(x),
    ensures
        final(list)@ == old(list)@.filter(pred),
{
    let ghost all = list@;
    let ghost mut done: int = 0;
    let mut i: usize = 0;
    proof {
        reveal(Seq::filter);
        assert(all.take(0) == Seq::<E>::empty());
        assert(all.skip(0) == all);
        assert(Seq::<E>::empty() + all == all);
    }
    while i < list.len()
        invariant
            forall|x: E| call_requires(keep, (&x,)),
            forall|x: E, r: bool| call_ensures(keep, (&x,), r) ==> r == pred(x),
            0 <= done <= all.len(),
            i == all.take(done).filter(pred).len(),
            list@ == all.take(done).filter(pred) + all.skip(done),
        decreases list@.len() - i,
    {
        let ghost here = all[done];
        let ghost before = list@;
        proof {
            reveal(Seq::filter);
            assert(list@[i as int] == here);
            assert(all.take(done + 1).drop_last() == all.take(done));
            assert(all.take(done + 1).last() == here);
        }
        let wanted = keep(&list[i]);
        if wanted {
            proof {
                let kept = all.take(done).filter(pred);
                assert(kept + all.skip(done) == kept.push(here) + all.skip(done + 1));
            }
            i += 1;
        } else {
            list.remove(i);
            assert(list@ == all.take(done).filter(pred) + all.skip(done + 1));
        }
        proof {
            done = done + 1;
        }
    }
    assert(all.take(done) == all);
    assert(list@ == all.filter(pred));
}

} // verus!
