use vstd::prelude::*;

verus! {

/// Returns the first position at which `item` occurs in `items`, scanning
/// from the left, or `None` where it does not occur.
pub fn linear_search(items: &[i32], item: i32) -> (r: Option<usize>)
    ensures
        match r {
            Some(i) => {
                &&& i < items@.len()
                &&& items@[i as int] == item
                &&& forall|k: int| 0 <= k < i ==> items@[k] != item
            },
            None => forall|k: int| 0 <= k < items@.len() ==> items@[k] != item,
        },
{
    let mut i: usize = 0;
    while i < items.len()
        invariant
            i <= items@.len(),
            forall|k: int| 0 <= k < i ==> items@[k] != item,
        decreases items@.len() - i,
    {
        if items[i] == item {
            return Some(i);
        }
        i += 1;
    }
    None
}

} // verus!
