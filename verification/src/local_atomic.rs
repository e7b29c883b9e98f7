//! Compare-and-exchange on a value that only one task at a time can reach.

use vstd::prelude::*;

verus! {

/// Stores `new` in the cell if it holds `current`. The result tells what the
/// cell held: `Ok` if the value was exchanged, `Err` if it was left alone.
pub fn usize_cell_compare_exchange_local(
    cell: &mut usize,
    current: usize,
    new: usize,
) -> (r: Result<usize, usize>)
    ensures
        *old(cell) == current ==> r == Ok::<usize, usize>(current) && *final(cell) == new,
        *old(cell) != current ==> r == Err::<usize, usize>(*old(cell)) && *final(cell) == *old(
            cell,
        ),
{
    let held: usize = *cell;
    if held == current {
        *cell = new;
        Ok(held)
    } else {
        Err(held)
    }
}

} // verus!
