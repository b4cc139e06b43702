//! Which layouts are copied, and where a copy puts what.

use vstd::prelude::*;

use crate::cuda::copy::{
    copy_plan, has_pitched_row_major_strides, indexes, nests, num_bytes, offset, pitched, plan_fits,
    position, product, products_fit, CopyPlan,
};
use crate::memory::error::IoError;

verus! {

/// How many elements there are for one index of the dimensions before `i`: the product of the
/// extents from `i` on, up to `end`.
pub open spec fn extents_between(shape: Seq<usize>, i: int, end: int) -> int
    decreases end - i,
{
    if i >= end {
        1
    } else {
        shape[i] * extents_between(shape, i + 1, end)
    }
}

/// Whether elements lie one behind the other: each stride is the product of the extents after
/// it.
pub open spec fn contiguous(shape: Seq<usize>, strides: Seq<usize>) -> bool {
    &&& strides.len() == shape.len()
    &&& forall|i: int|
        0 <= i < shape.len() ==> (#[trigger] strides[i]) == extents_between(
            shape,
            i + 1,
            shape.len() as int,
        )
}

/// Whether rows lie `pitch` elements apart: each stride but the last is as many rows as the
/// extents between it and the row make, times the pitch.
pub open spec fn rows_apart(shape: Seq<usize>, strides: Seq<usize>, pitch: int) -> bool {
    &&& strides.len() == shape.len()
    &&& shape.len() > 0 ==> strides[shape.len() - 1] == 1
    &&& forall|i: int|
        0 <= i < shape.len() - 1 ==> (#[trigger] strides[i]) == pitch * extents_between(
            shape,
            i + 1,
            shape.len() - 1,
        )
}

/// Rows that lie apart by one pitch are what is taken.
pub proof fn lemma_rows_apart(shape: Seq<usize>, strides: Seq<usize>, pitch: int)
    requires
        rows_apart(shape, strides, pitch),
        shape.len() > 1 ==> pitch >= shape[shape.len() - 1],
    ensures
        pitched(shape, strides),
{
    let rank = shape.len() as int;
    if rank >= 2 {
        assert(strides[rank - 2] == pitch * extents_between(shape, rank - 1, rank - 1));
        assert(extents_between(shape, rank - 1, rank - 1) == 1);
        assert(pitch * 1 == pitch);
        assert forall|i: int| 0 <= i < rank - 2 implies #[trigger] nests(shape, strides, i) by {
            let e = extents_between(shape, i + 2, rank - 1);
            assert(strides[i] == pitch * extents_between(shape, i + 1, rank - 1));
            assert(strides[i + 1] == pitch * e);
            assert(extents_between(shape, i + 1, rank - 1) == shape[i + 1] * e);
            let s = shape[i + 1] as int;
            assert(pitch * (s * e) == s * (pitch * e)) by (nonlinear_arith);
        }
    }
}

proof fn lemma_pitched(shape: Seq<usize>, strides: Seq<usize>, i: int)
    requires
        pitched(shape, strides),
        0 <= i < shape.len() - 1,
    ensures
        strides[i] == strides[shape.len() - 2] * extents_between(shape, i + 1, shape.len() - 1),
    decreases shape.len() - i,
{
    let rank = shape.len() as int;
    let pitch = strides[rank - 2] as int;
    if i == rank - 2 {
        assert(extents_between(shape, rank - 1, rank - 1) == 1);
        assert(pitch * 1 == pitch);
    } else {
        lemma_pitched(shape, strides, i + 1);
        assert(nests(shape, strides, i));
        let e = extents_between(shape, i + 2, rank - 1);
        let s = shape[i + 1] as int;
        assert(extents_between(shape, i + 1, rank - 1) == s * e);
        assert(s * (pitch * e) == pitch * (s * e)) by (nonlinear_arith);
    }
}

proof fn lemma_last_extent(shape: Seq<usize>, i: int, end: int)
    requires
        0 <= i <= end,
    ensures
        extents_between(shape, i, end + 1) == extents_between(shape, i, end) * shape[end],
    decreases end - i,
{
    if i < end {
        lemma_last_extent(shape, i + 1, end);
        let s = shape[i] as int;
        let e = extents_between(shape, i + 1, end);
        let l = shape[end] as int;
        assert(s * (e * l) == (s * e) * l) by (nonlinear_arith);
    } else {
        assert(extents_between(shape, end + 1, end + 1) == 1);
        assert(extents_between(shape, end, end + 1) == shape[end] * 1);
        assert(extents_between(shape, end, end) == 1);
    }
}

/// Contiguous rows lie as far apart as they are long.
pub proof fn lemma_contiguous(shape: Seq<usize>, strides: Seq<usize>)
    requires
        contiguous(shape, strides),
    ensures
        shape.len() > 0 ==> rows_apart(shape, strides, shape[shape.len() - 1] as int),
{
    let rank = shape.len() as int;
    if rank > 0 {
        let row = shape[rank - 1] as int;
        assert(strides[rank - 1] == extents_between(shape, rank, rank));
        assert(extents_between(shape, rank, rank) == 1);
        assert forall|i: int| 0 <= i < rank - 1 implies (#[trigger] strides[i]) == row
            * extents_between(shape, i + 1, rank - 1) by {
            lemma_last_extent(shape, i + 1, rank - 1);
            let e = extents_between(shape, i + 1, rank - 1);
            assert(e * row == row * e) by (nonlinear_arith);
        }
    }
}

/// The product of the first extents, from the other end.
pub proof fn lemma_product(shape: Seq<usize>, n: nat)
    requires
        n <= shape.len(),
    ensures
        product(shape, n) == extents_between(shape, 0, n as int),
    decreases n,
{
    if n > 0 {
        lemma_product(shape, (n - 1) as nat);
        lemma_last_extent(shape, 0, n - 1);
    }
}

/// Contiguous strides are taken, of any rank.
pub proof fn law_contiguous_strides_are_taken(shape: Vec<usize>, strides: Vec<usize>, r: bool)
    requires
        call_ensures(has_pitched_row_major_strides, (&shape, &strides), r),
        contiguous(shape@, strides@),
    ensures
        r,
{
    lemma_contiguous(shape@, strides@);
    if shape@.len() > 0 {
        lemma_rows_apart(shape@, strides@, shape@[shape@.len() - 1] as int);
    }
}

/// Strides are taken, of any rank, exactly if rows lie apart by one pitch that is no shorter
/// than a row.
pub proof fn law_strides_with_a_pitch_are_taken(
    shape: Vec<usize>,
    strides: Vec<usize>,
    pitch: int,
    r: bool,
)
    requires
        call_ensures(has_pitched_row_major_strides, (&shape, &strides), r),
    ensures
        rows_apart(shape@, strides@, pitch) && (shape@.len() > 1 ==> pitch >= shape@.last()) ==> r,
        r && shape@.len() > 1 ==> rows_apart(
            shape@,
            strides@,
            strides@[shape@.len() - 2] as int,
        ) && strides@[shape@.len() - 2] >= shape@.last(),
        shape@.len() == 1 ==> (r <==> strides@.len() == 1 && strides@[0] == 1),
        shape@.len() == 0 ==> (r <==> strides@.len() == 0),
{
    if rows_apart(shape@, strides@, pitch) && (shape@.len() > 1 ==> pitch >= shape@.last()) {
        lemma_rows_apart(shape@, strides@, pitch);
    }
    if r && shape@.len() > 1 {
        let p = strides@[shape@.len() - 2] as int;
        assert forall|i: int| 0 <= i < shape@.len() - 1 implies (#[trigger] strides@[i]) == p
            * extents_between(shape@, i + 1, shape@.len() - 1) by {
            lemma_pitched(shape@, strides@, i);
        }
    }
}

/// A copy is never refused for strides that are contiguous, or whose rows lie apart by one
/// pitch. It is only refused for its strides, and only for others.
pub proof fn law_copy_is_refused_for_other_strides_only(
    shape: Vec<usize>,
    strides: Vec<usize>,
    elem_size: usize,
    r: Result<CopyPlan, IoError>,
    pitch: int,
)
    requires
        plan_fits(shape@, strides@, elem_size),
        call_ensures(copy_plan, (&shape, &strides, elem_size), r),
    ensures
        contiguous(shape@, strides@) ==> r is Ok,
        rows_apart(shape@, strides@, pitch) && (shape@.len() > 1 ==> pitch >= shape@.last())
            ==> r is Ok,
        r matches Err(error) ==> error == IoError::UnsupportedStrides,
        r is Ok && shape@.len() > 1 ==> rows_apart(
            shape@,
            strides@,
            strides@[shape@.len() - 2] as int,
        ) && strides@[shape@.len() - 2] >= shape@.last(),
        r is Ok ==> strides@.len() == shape@.len() && (shape@.len() > 0 ==> strides@.last() == 1),
{
    let p = strides@[shape@.len() - 2] as int;
    if contiguous(shape@, strides@) {
        lemma_contiguous(shape@, strides@);
        if shape@.len() > 0 {
            lemma_rows_apart(shape@, strides@, shape@[shape@.len() - 1] as int);
        }
    }
    if rows_apart(shape@, strides@, pitch) && (shape@.len() > 1 ==> pitch >= shape@.last()) {
        lemma_rows_apart(shape@, strides@, pitch);
    }
    if r is Ok && shape@.len() > 1 {
        assert forall|i: int| 0 <= i < shape@.len() - 1 implies (#[trigger] strides@[i]) == p
            * extents_between(shape@, i + 1, shape@.len() - 1) by {
            lemma_pitched(shape@, strides@, i);
        }
    }
}

/// A tensor has as many bytes as its extents make elements.
pub proof fn law_bytes_are_those_of_all_elements(shape: Vec<usize>, elem_size: usize, r: usize)
    requires
        products_fit(shape@, shape@.len()),
        product(shape@, shape@.len()) * elem_size <= usize::MAX,
        call_ensures(num_bytes, (&shape, elem_size), r),
    ensures
        r == extents_between(shape@, 0, shape@.len() as int) * elem_size,
{
    lemma_product(shape@, shape@.len());
}

/// A copy is of one piece exactly if there is at most one dimension. Else its rows are as long
/// as the innermost extent says, there are as many as the others make, and together they are
/// all bytes of the tensor.
pub proof fn law_rows_are_all_bytes(
    shape: Vec<usize>,
    strides: Vec<usize>,
    elem_size: usize,
    r: Result<CopyPlan, IoError>,
    bytes: usize,
)
    requires
        plan_fits(shape@, strides@, elem_size),
        call_ensures(copy_plan, (&shape, &strides, elem_size), r),
        products_fit(shape@, shape@.len()),
        product(shape@, shape@.len()) * elem_size <= usize::MAX,
        call_ensures(num_bytes, (&shape, elem_size), bytes),
        r is Ok,
    ensures
        r->Ok_0 is Linear <==> shape@.len() <= 1,
        r->Ok_0 matches CopyPlan::Pitched { width, height, pitch } ==> {
            &&& width == shape@.last() * elem_size
            &&& height == extents_between(shape@, 0, shape@.len() - 1)
            &&& width * height == bytes
            &&& width <= pitch
        },
{
    let rank = shape@.len() as int;
    if rank >= 2 {
        lemma_product(shape@, (rank - 1) as nat);
        lemma_product(shape@, rank as nat);
        assert(product(shape@, (rank - 1) as nat) <= usize::MAX);
        let p = product(shape@, (rank - 1) as nat);
        assert(p >= 0) by {
            lemma_product_positive(shape@, (rank - 1) as nat);
        }
        let s = shape@[rank - 1] as int;
        let e = elem_size as int;
        let t = strides@[rank - 2] as int;
        assert(product(shape@, rank as nat) == p * s);
        assert((s * e) * p == (p * s) * e) by (nonlinear_arith);
        assert(0 <= s * e <= t * e) by (nonlinear_arith)
            requires
                0 <= s <= t,
                0 <= e,
        ;
    }
}

/// A product of extents is never negative.
pub proof fn lemma_product_positive(shape: Seq<usize>, n: nat)
    requires
        n <= shape.len(),
    ensures
        product(shape, n) >= 0,
    decreases n,
{
    if n > 0 {
        lemma_product_positive(shape, (n - 1) as nat);
        let p = product(shape, (n - 1) as nat);
        let s = shape[n - 1] as int;
        assert(p * s >= 0) by (nonlinear_arith)
            requires
                p >= 0,
                s >= 0,
        ;
    }
}

/// Every element of a tensor is in one row of the copy: it is taken from where it is among the
/// contiguous elements and put where the strides say, both counted in bytes.
pub proof fn law_copy_puts_elements_where_strides_say(
    shape: Vec<usize>,
    strides: Vec<usize>,
    elem_size: usize,
    r: Result<CopyPlan, IoError>,
    index: Seq<usize>,
)
    requires
        plan_fits(shape@, strides@, elem_size),
        call_ensures(copy_plan, (&shape, &strides, elem_size), r),
        indexes(index, shape@),
        r is Ok,
        shape@.len() >= 2,
    ensures
        r->Ok_0 matches CopyPlan::Pitched { width, height, pitch } && {
            let rank = shape@.len();
            let row = position(index, shape@, (rank - 1) as nat);
            let column = index[rank - 1] * elem_size;
            &&& 0 <= row < height
            &&& 0 <= column && column + elem_size <= width <= pitch
            &&& position(index, shape@, rank) * elem_size == row * width + column
            &&& offset(index, strides@, rank) * elem_size == row * pitch + column
        },
{
    let rank = shape@.len();
    crate::cuda::copy::law_pitched_copy_follows_strides(index, shape@, strides@, elem_size);
    let row = position(index, shape@, (rank - 1) as nat);
    let s = shape@[rank - 1] as int;
    let e = elem_size as int;
    let i = index[rank - 1] as int;
    assert((row * s + i) * e == row * (s * e) + i * e) by (nonlinear_arith);
    assert(0 <= i * e) by (nonlinear_arith)
        requires
            0 <= i,
            0 <= e,
    ;
    assert(0 <= s * e) by (nonlinear_arith)
        requires
            0 <= s,
            0 <= e,
    ;
}

} // verus!
