//! Counting arguments: an injective map of a finite range into itself hits
//! every value.
use vstd::prelude::*;

verus! {

/// A sequence of `m` pairwise different values below `m` holds every value
/// below `m`.
pub proof fn lemma_injective_is_onto(f: Seq<int>, c: int)
    requires
        forall|i: int| 0 <= i < f.len() ==> 0 <= #[trigger] f[i] < f.len(),
        forall|i: int, j: int| 0 <= i < j < f.len() ==> f[i] != f[j],
        0 <= c < f.len(),
    ensures
        exists|i: int| 0 <= i < f.len() && f[i] == c,
{
    let m = f.len() as int;
    assert(f.no_duplicates()) by {
        assert forall|i: int, j: int| 0 <= i < f.len() && 0 <= j < f.len() && i != j implies f[i]
            != f[j] by {
            if i < j {
            } else {
                assert(f[j] != f[i]);
            }
        }
    }
    f.unique_seq_to_set();
    vstd::set_lib::lemma_int_range(0, m);
    let range = vstd::set_lib::set_int_range(0, m);
    vstd::seq_lib::seq_to_set_is_finite(f);
    assert(f.to_set().subset_of(range)) by {
        assert forall|v: int| f.to_set().contains(v) implies range.contains(v) by {
            let i = choose|i: int| 0 <= i < f.len() && f[i] == v;
            assert(0 <= f[i] < f.len());
        }
    }
    vstd::set_lib::lemma_subset_equality(f.to_set(), range);
    assert(range.contains(c));
    assert(f.to_set().contains(c));
    assert(f.contains(c));
}

/// A cell's index in row order tells the cell: two cells of a grid with the
/// same index are the same cell.
pub proof fn lemma_row_index(cx: int, cy: int, dx: int, dy: int, width: int)
    requires
        0 <= cx < width,
        0 <= dx < width,
        0 <= cy,
        0 <= dy,
        cy * width + cx == dy * width + dx,
    ensures
        cx == dx,
        cy == dy,
{
    assert(cy == dy) by (nonlinear_arith)
        requires
            0 <= cx < width,
            0 <= dx < width,
            cy * width + cx == dy * width + dx,
    ;
    assert(cx == dx) by (nonlinear_arith)
        requires
            cy == dy,
            cy * width + cx == dy * width + dx,
    ;
}

/// A cell's index in row order is below the number of cells.
pub proof fn lemma_row_index_bound(cx: int, cy: int, width: int, height: int)
    requires
        0 <= cx < width,
        0 <= cy < height,
    ensures
        0 <= cy * width + cx < width * height,
{
    assert(0 <= cy * width + cx < width * height) by (nonlinear_arith)
        requires
            0 <= cx < width,
            0 <= cy < height,
    ;
}

} // verus!
