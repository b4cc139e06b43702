//! How a tensor is copied between host and device.
//!
//! On the host a tensor is contiguous. On the device its rows may be further apart than
//! they are long: the layout is row-major with a pitch.

use vstd::prelude::*;

use crate::memory::error::IoError;

verus! {

/// The product of the first `n` extents.
pub open spec fn product(shape: Seq<usize>, n: nat) -> int
    decreases n,
{
    if n == 0 {
        1
    } else {
        product(shape, (n - 1) as nat) * shape[n - 1]
    }
}

/// Whether the product of the first extents can be computed, one after another.
pub open spec fn products_fit(shape: Seq<usize>, n: nat) -> bool {
    forall|i: nat| i <= n ==> #[trigger] product(shape, i) <= usize::MAX
}

/// Whether the outer dimension `i` is stepped over contiguously.
pub open spec fn nests(shape: Seq<usize>, strides: Seq<usize>, i: int) -> bool {
    strides[i] == shape[i + 1] * strides[i + 1]
}

/// Whether strides are row-major with a pitch: elements of a row lie next to each other,
/// rows may be apart, and all outer dimensions are contiguous rows.
pub open spec fn pitched(shape: Seq<usize>, strides: Seq<usize>) -> bool {
    let rank = shape.len();
    &&& strides.len() == rank
    &&& rank >= 1 ==> strides[rank - 1] == 1
    &&& rank >= 2 ==> strides[rank - 2] >= shape[rank - 1]
    &&& forall|i: int| 0 <= i < rank - 2 ==> #[trigger] nests(shape, strides, i)
}

/// Whether strides are row-major with a pitch.
pub fn has_pitched_row_major_strides(shape: &Vec<usize>, strides: &Vec<usize>) -> (r: bool)
    ensures
        r == pitched(shape@, strides@),
{
    let rank: usize = shape.len();
    if strides.len() != rank {
        return false;
    }
    if rank >= 1 && strides[rank - 1] != 1 {
        return false;
    }
    if rank >= 2 && strides[rank - 2] < shape[rank - 1] {
        return false;
    }
    if rank < 2 {
        return true;
    }
    let mut i: usize = 0;
    while i < rank - 2
        invariant
            rank == shape.len() == strides.len(),
            i <= rank - 2,
            forall|k: int| 0 <= k < i ==> #[trigger] nests(shape@, strides@, k),
        decreases rank - i,
    {
        let inner: u128 = shape[i + 1] as u128;
        let below: u128 = strides[i + 1] as u128;
        assert(inner * below <= u128::MAX) by (nonlinear_arith)
            requires
                inner <= u64::MAX,
                below <= u64::MAX,
        ;
        if strides[i] as u128 != inner * below {
            assert(!nests(shape@, strides@, i as int));
            return false;
        }
        i += 1;
    }
    true
}

/// How many bytes a tensor has on the host.
pub fn num_bytes(shape: &Vec<usize>, elem_size: usize) -> (r: usize)
    requires
        products_fit(shape@, shape@.len()),
        product(shape@, shape@.len()) * elem_size <= usize::MAX,
    ensures
        r == product(shape@, shape@.len()) * elem_size,
{
    let n: usize = shape.len();
    extent(shape, n) * elem_size
}

/// The product of the first `n` extents.
fn extent(shape: &Vec<usize>, n: usize) -> (r: usize)
    requires
        n <= shape.len(),
        products_fit(shape@, n as nat),
    ensures
        r == product(shape@, n as nat),
{
    let mut r: usize = 1;
    let mut i: usize = 0;
    assert(product(shape@, 0) == 1);
    while i < n
        invariant
            i <= n <= shape.len(),
            products_fit(shape@, n as nat),
            r == product(shape@, i as nat),
        decreases n - i,
    {
        assert(product(shape@, (i + 1) as nat) <= usize::MAX);
        r = r * shape[i];
        i += 1;
    }
    r
}

/// A copy between host and device.
#[derive(Clone, Copy, Debug, PartialEq, Eq)]
pub enum CopyPlan {
    /// Of all bytes, in one piece.
    Linear,
    /// Of `height` rows of `width` bytes, which start `pitch` bytes apart on the device.
    Pitched { width: usize, height: usize, pitch: usize },
}

/// The copy of a tensor of rank two or more: its innermost dimension is a row, and all
/// others together say how many rows there are.
pub open spec fn pitched_plan(shape: Seq<usize>, strides: Seq<usize>, elem_size: usize) -> CopyPlan {
    let rank = shape.len();
    CopyPlan::Pitched {
        width: (shape[rank - 1] * elem_size) as usize,
        height: product(shape, (rank - 1) as nat) as usize,
        pitch: (strides[rank - 2] * elem_size) as usize,
    }
}

/// Whether the numbers of a copy can be computed.
pub open spec fn plan_fits(shape: Seq<usize>, strides: Seq<usize>, elem_size: usize) -> bool {
    let rank = shape.len();
    pitched(shape, strides) && rank >= 2 ==> {
        &&& shape[rank - 1] * elem_size <= usize::MAX
        &&& strides[rank - 2] * elem_size <= usize::MAX
        &&& products_fit(shape, (rank - 1) as nat)
    }
}

/// How a tensor is copied. Strides that are not row-major with a pitch are refused.
pub fn copy_plan(shape: &Vec<usize>, strides: &Vec<usize>, elem_size: usize) -> (r: Result<
    CopyPlan,
    IoError,
>)
    requires
        plan_fits(shape@, strides@, elem_size),
    ensures
        !pitched(shape@, strides@) ==> r == Err::<CopyPlan, IoError>(IoError::UnsupportedStrides),
        pitched(shape@, strides@) && shape@.len() <= 1 ==> r == Ok::<CopyPlan, IoError>(
            CopyPlan::Linear,
        ),
        pitched(shape@, strides@) && shape@.len() >= 2 ==> r == Ok::<CopyPlan, IoError>(
            pitched_plan(shape@, strides@, elem_size),
        ),
{
    if !has_pitched_row_major_strides(shape, strides) {
        return Err(IoError::UnsupportedStrides);
    }
    let rank: usize = shape.len();
    if rank <= 1 {
        return Ok(CopyPlan::Linear);
    }
    let width: usize = shape[rank - 1] * elem_size;
    let height: usize = extent(shape, rank - 1);
    let pitch: usize = strides[rank - 2] * elem_size;
    Ok(CopyPlan::Pitched { width, height, pitch })
}

/// Where an element is on the device, counted in elements, by its index in the first `n`
/// dimensions.
pub open spec fn offset(index: Seq<usize>, strides: Seq<usize>, n: nat) -> int
    decreases n,
{
    if n == 0 {
        0
    } else {
        offset(index, strides, (n - 1) as nat) + index[n - 1] * strides[n - 1]
    }
}

/// Which one of the contiguous items an index in the first `n` dimensions means.
pub open spec fn position(index: Seq<usize>, shape: Seq<usize>, n: nat) -> int
    decreases n,
{
    if n == 0 {
        0
    } else {
        position(index, shape, (n - 1) as nat) * shape[n - 1] + index[n - 1]
    }
}

/// Whether an index is one of a tensor.
pub open spec fn indexes(index: Seq<usize>, shape: Seq<usize>) -> bool {
    &&& index.len() == shape.len()
    &&& forall|i: int| 0 <= i < shape.len() ==> (#[trigger] index[i]) < shape[i]
}

/// The row of an element is one of those that are copied.
proof fn lemma_position_bound(index: Seq<usize>, shape: Seq<usize>, n: nat)
    requires
        indexes(index, shape),
        n <= shape.len(),
    ensures
        0 <= position(index, shape, n) < product(shape, n),
    decreases n,
{
    if n > 0 {
        lemma_position_bound(index, shape, (n - 1) as nat);
        let p = position(index, shape, (n - 1) as nat);
        let q = product(shape, (n - 1) as nat);
        let s = shape[n - 1] as int;
        let i = index[n - 1] as int;
        assert(index[n - 1] < shape[n - 1]);
        assert(0 <= p * s + i < q * s) by (nonlinear_arith)
            requires
                0 <= p < q,
                0 <= i < s,
        ;
    }
}

proof fn lemma_rows(index: Seq<usize>, shape: Seq<usize>, strides: Seq<usize>, n: nat)
    requires
        pitched(shape, strides),
        indexes(index, shape),
        1 <= n < shape.len(),
    ensures
        offset(index, strides, n) == position(index, shape, n) * strides[n - 1],
    decreases n,
{
    if n == 1 {
        assert(offset(index, strides, 0) == 0);
        assert(position(index, shape, 0) == 0);
        assert(offset(index, strides, 1) == index[0] * strides[0]);
        assert(position(index, shape, 1) == 0 * shape[0] + index[0]);
    } else {
        lemma_rows(index, shape, strides, (n - 1) as nat);
        assert(nests(shape, strides, n - 2));
        let p = position(index, shape, (n - 1) as nat);
        let s = shape[n - 1] as int;
        let t = strides[n - 1] as int;
        let i = index[n - 1] as int;
        assert(p * (s * t) + i * t == (p * s + i) * t) by (nonlinear_arith);
    }
}

/// What a pitched copy does: it puts every element where the strides say it is, its row
/// times the pitch and then its place in the row, and no row reaches into the next.
pub proof fn law_pitched_copy_follows_strides(
    index: Seq<usize>,
    shape: Seq<usize>,
    strides: Seq<usize>,
    elem_size: usize,
)
    requires
        pitched(shape, strides),
        plan_fits(shape, strides, elem_size),
        shape.len() >= 2,
        indexes(index, shape),
    ensures
        ({
            let rank = shape.len();
            let plan = pitched_plan(shape, strides, elem_size);
            let row = position(index, shape, (rank - 1) as nat);
            let column = index[rank - 1] as int;
            &&& 0 <= row < plan->height
            &&& offset(index, strides, rank) * elem_size == row * plan->pitch + column * elem_size
            &&& column * elem_size + elem_size <= plan->width <= plan->pitch
        }),
{
    let rank = shape.len();
    let row = position(index, shape, (rank - 1) as nat);
    let column = index[rank - 1] as int;
    let size = elem_size as int;
    let stride = strides[rank - 2] as int;
    let last = shape[rank - 1] as int;
    lemma_position_bound(index, shape, (rank - 1) as nat);
    lemma_rows(index, shape, strides, (rank - 1) as nat);
    assert(product(shape, (rank - 1) as nat) <= usize::MAX);
    assert(index[rank - 1] < shape[rank - 1]);
    assert((row * stride + column * 1) * size == row * (stride * size) + column * size)
        by (nonlinear_arith);
    assert(column * size + size <= last * size) by (nonlinear_arith)
        requires
            column < last,
            0 <= size,
    ;
    assert(last * size <= stride * size) by (nonlinear_arith)
        requires
            last <= stride,
            0 <= size,
    ;
    assert(0 <= stride * size && 0 <= last * size) by (nonlinear_arith)
        requires
            0 <= size,
            0 <= stride,
            0 <= last,
    ;
}

/// Different elements of a tensor are different items of the contiguous host buffer.
pub proof fn law_positions_differ(a: Seq<usize>, b: Seq<usize>, shape: Seq<usize>, n: nat)
    requires
        indexes(a, shape),
        indexes(b, shape),
        n <= shape.len(),
        position(a, shape, n) == position(b, shape, n),
    ensures
        forall|i: int| 0 <= i < n ==> (#[trigger] a[i]) == b[i],
    decreases n,
{
    if n > 0 {
        let p = position(a, shape, (n - 1) as nat);
        let q = position(b, shape, (n - 1) as nat);
        let s = shape[n - 1] as int;
        let i = a[n - 1] as int;
        let j = b[n - 1] as int;
        assert(a[n - 1] < shape[n - 1]);
        assert(b[n - 1] < shape[n - 1]);
        assert(p == q && i == j) by (nonlinear_arith)
            requires
                p * s + i == q * s + j,
                0 <= i < s,
                0 <= j < s,
        ;
        law_positions_differ(a, b, shape, (n - 1) as nat);
    }
}

/// The device memory after contiguous host bytes were copied to it.
pub open spec fn copied_in(plan: CopyPlan, host: Seq<u8>, device: Seq<u8>) -> Seq<u8> {
    match plan {
        CopyPlan::Linear => Seq::new(
            device.len(),
            |k: int|
                if k < host.len() {
                    host[k]
                } else {
                    device[k]
                },
        ),
        CopyPlan::Pitched { width, height, pitch } => Seq::new(
            device.len(),
            |k: int|
                if k / (pitch as int) < height && k % (pitch as int) < width {
                    host[(k / (pitch as int)) * width + k % (pitch as int)]
                } else {
                    device[k]
                },
        ),
    }
}

/// The `len` contiguous host bytes that are copied from device memory.
pub open spec fn copied_out(plan: CopyPlan, device: Seq<u8>, len: nat) -> Seq<u8> {
    match plan {
        CopyPlan::Linear => device.take(len as int),
        CopyPlan::Pitched { width, pitch, .. } => Seq::new(
            len,
            |i: int| device[(i / (width as int)) * pitch + i % (width as int)],
        ),
    }
}

/// Whether host bytes and device memory are as large as a copy says.
pub open spec fn copy_fits(plan: CopyPlan, host: nat, device: nat) -> bool {
    match plan {
        CopyPlan::Linear => host <= device,
        CopyPlan::Pitched { width, height, pitch } => {
            &&& host == width * height
            &&& width <= pitch
            &&& height > 0 ==> (height - 1) * pitch + width <= device
        },
    }
}

/// A copy to the device and back gives the same bytes, with rows apart or not.
pub proof fn law_copy_in_and_out_gives_the_same(plan: CopyPlan, host: Seq<u8>, device: Seq<u8>)
    requires
        copy_fits(plan, host.len(), device.len()),
    ensures
        copied_out(plan, copied_in(plan, host, device), host.len()) == host,
{
    let there = copied_in(plan, host, device);
    let back = copied_out(plan, there, host.len());
    match plan {
        CopyPlan::Linear => {
            assert(back =~= host);
        },
        CopyPlan::Pitched { width, height, pitch } => {
            let w = width as int;
            let h = height as int;
            let p = pitch as int;
            assert forall|i: int| 0 <= i < host.len() implies #[trigger] back[i] == host[i] by {
                assert(w > 0) by (nonlinear_arith)
                    requires
                        0 <= i < w * h,
                        w >= 0,
                ;
                let row = i / w;
                let column = i % w;
                vstd::arithmetic::div_mod::lemma_fundamental_div_mod(i, w);
                vstd::arithmetic::div_mod::lemma_mod_bound(i, w);
                assert(0 <= row < h) by (nonlinear_arith)
                    requires
                        i == w * row + column,
                        0 <= column < w,
                        0 <= i < w * h,
                ;
                let k = row * p + column;
                assert(0 <= k && row * p <= (h - 1) * p) by (nonlinear_arith)
                    requires
                        k == row * p + column,
                        0 <= row < h,
                        0 <= column,
                        0 < p,
                ;
                vstd::arithmetic::div_mod::lemma_fundamental_div_mod_converse(k, p, row, column);
                assert(row * w == w * row) by (nonlinear_arith);
            }
            assert(back =~= host);
        },
    }
}

} // verus!
