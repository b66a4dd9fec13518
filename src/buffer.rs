use vstd::prelude::*;

use crate::index_path::{
    lemma_path_lt_total,
    lemma_path_lt_transitive,
    path_le,
    IndexPath,
};

verus! {

/// An item that sits in a local buffer, placed by its ordinal path.
pub trait Placed {
    spec fn place(&self) -> Seq<usize>;

    fn path(&self) -> (r: &IndexPath)
        ensures
            r@ == self.place(),
    ;
}

/// Whether `items[i]` has the least path of all the items.
pub open spec fn is_least<E: Placed>(items: Seq<E>, i: int) -> bool {
    &&& 0 <= i < items.len()
    &&& forall|j: int| 0 <= j < items.len() ==> path_le(items[i].place(), #[trigger] items[j].place())
}

/// The position of an item with the least path, if there is any item.
pub fn least_index<E: Placed>(items: &Vec<E>) -> (r: Option<usize>)
    ensures
        r is None <==> items@.len() == 0,
        r matches Some(i) ==> is_least(items@, i as int),
{
    if items.len() == 0 {
        return None;
    }
    let mut best: usize = 0;
    let mut k: usize = 1;
    while k < items.len()
        invariant
            0 <= best < k <= items@.len(),
            forall|j: int| 0 <= j < k ==> path_le(items@[best as int].place(), #[trigger] items@[j].place()),
        decreases items@.len() - k,
    {
        let candidate = items[k].path();
        if candidate.precedes(items[best].path()) {
            proof {
                let b = items@[best as int].place();
                let c = items@[k as int].place();
                assert forall|j: int| 0 <= j < k + 1 implies path_le(c, #[trigger] items@[j].place()) by {
                    if j < k && items@[j].place() != b {
                        lemma_path_lt_transitive(c, b, items@[j].place());
                    }
                }
            }
            best = k;
        } else {
            proof {
                let b = items@[best as int].place();
                let c = items@[k as int].place();
                lemma_path_lt_total(b, c);
            }
        }
        k = k + 1;
    }
    Some(best)
}

} // verus!
