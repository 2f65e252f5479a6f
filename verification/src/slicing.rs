use vstd::prelude::*;
use vstd::arithmetic::div_mod::{lemma_fundamental_div_mod, lemma_mod_bound};
use crate::error::BridgeError;
use crate::shape::{
    element_count,
    index_of,
    lemma_index_inside,
    lemma_offset_is_position,
    offset_of,
    position_of,
    lemma_product_positive,
    lemma_product_skip,
    lemma_span_nonnegative,
    lemma_span_skip,
    product,
    row_major,
    row_major_strides,
    span,
};
use crate::tensor::{Tensor, TensorView};

verus! {

/// One axis of a slice stays inside a dimension of size `d`: it starts at a
/// position of the dimension or just behind the last one, takes no step
/// backwards or in place, and its last sample, if it has any, is a position
/// of the dimension. The start is held to the dimension also where the axis
/// takes no sample: an empty range that starts beyond the dimension is out
/// of bounds like any other.
pub open spec fn axis_in_range(d: usize, start: isize, length: isize, step: isize) -> bool {
    &&& 0 <= start <= d
    &&& 0 <= length
    &&& 1 <= step
    &&& length > 0 ==> start + (length - 1) * step < d
}

/// A slice names every axis of the shape and stays inside each.
pub open spec fn slice_in_range(
    shape: Seq<usize>,
    start: Seq<isize>,
    lengths: Seq<isize>,
    steps: Seq<isize>,
) -> bool {
    &&& start.len() == shape.len()
    &&& lengths.len() == shape.len()
    &&& steps.len() == shape.len()
    &&& forall|a: int|
        0 <= a < shape.len() ==> axis_in_range(shape[a], #[trigger] start[a], lengths[a], steps[a])
}

/// The lengths of a slice as the sizes of a shape.
pub open spec fn sizes_of(lengths: Seq<isize>) -> Seq<usize> {
    Seq::new(lengths.len(), |a: int| lengths[a] as usize)
}

/// The position of the slice's first element, counted from the source's.
pub open spec fn start_offset(start: Seq<isize>, strides: Seq<usize>) -> int
    decreases start.len(),
{
    if start.len() == 0 || strides.len() == 0 {
        0
    } else {
        start[0] * strides[0] + start_offset(start.drop_first(), strides.drop_first())
    }
}

/// The strides of a slice: on each axis the source's stride, taken `step`
/// times. An axis with a single sample keeps the source's stride.
pub open spec fn sliced_strides(lengths: Seq<isize>, steps: Seq<isize>, strides: Seq<usize>) -> Seq<
    usize,
> {
    Seq::new(
        lengths.len(),
        |a: int|
            if lengths[a] <= 1 {
                strides[a]
            } else {
                (steps[a] * strides[a]) as usize
            },
    )
}

impl TensorView {
    /// The window that a slice opens on this tensor's buffer: on axis `a` it
    /// shows the positions `start[a] + k * steps[a]` for `k` below
    /// `lengths[a]`. A slice without elements starts at the buffer's start
    /// with strides of zero.
    pub open spec fn sliced(self, start: Seq<isize>, lengths: Seq<isize>, steps: Seq<isize>) -> TensorView {
        let shape = sizes_of(lengths);
        if product(shape) == 0 {
            TensorView {
                dtype: self.dtype,
                shape,
                strides: row_major(shape),
                offset: 0,
                buffer: self.buffer,
            }
        } else {
            TensorView {
                dtype: self.dtype,
                shape,
                strides: sliced_strides(lengths, steps, self.strides),
                offset: self.offset + start_offset(start, self.strides),
                buffer: self.buffer,
            }
        }
    }
}

/// A slice with elements lies inside its source: its first element is not
/// before the source's, its last not behind the source's, and it has no more
/// elements than the source.
pub proof fn lemma_slice_inside(
    shape: Seq<usize>,
    strides: Seq<usize>,
    start: Seq<isize>,
    lengths: Seq<isize>,
    steps: Seq<isize>,
)
    requires
        shape.len() == strides.len(),
        slice_in_range(shape, start, lengths, steps),
        product(sizes_of(lengths)) > 0,
        span(shape, strides) <= usize::MAX,
    ensures
        0 <= start_offset(start, strides),
        0 <= span(sizes_of(lengths), sliced_strides(lengths, steps, strides)),
        start_offset(start, strides) + span(
            sizes_of(lengths),
            sliced_strides(lengths, steps, strides),
        ) <= span(shape, strides),
        0 < product(sizes_of(lengths)) <= product(shape),
        shape.len() > 0 ==> 0 <= start[0] * strides[0] <= span(shape, strides),
        shape.len() > 0 && lengths[0] >= 2 ==> 0 <= steps[0] * strides[0] <= span(shape, strides),
    decreases shape.len(),
{
    if shape.len() > 0 {
        let sizes = sizes_of(lengths);
        let taken = sliced_strides(lengths, steps, strides);
        assert(axis_in_range(shape[0], start[0], lengths[0], steps[0]));
        assert(sizes.drop_first() =~= sizes_of(lengths.drop_first()));
        assert(taken.drop_first() =~= sliced_strides(
            lengths.drop_first(),
            steps.drop_first(),
            strides.drop_first(),
        ));
        let l = lengths[0] as int;
        let s = start[0] as int;
        let st = steps[0] as int;
        let d = shape[0] as int;
        let t = strides[0] as int;
        let inner = product(sizes.drop_first()) as int;
        assert(sizes[0] == l);
        assert(l > 0 && inner > 0) by (nonlinear_arith)
            requires
                l * inner > 0,
                l >= 0,
                inner >= 0,
        ;
        assert forall|a: int| 0 <= a < shape.drop_first().len() implies axis_in_range(
            shape.drop_first()[a],
            #[trigger] start.drop_first()[a],
            lengths.drop_first()[a],
            steps.drop_first()[a],
        ) by {
            assert(axis_in_range(shape[a + 1], start[a + 1], lengths[a + 1], steps[a + 1]));
        }
        assert(l - 1 <= (l - 1) * st) by (nonlinear_arith)
            requires
                l >= 1,
                st >= 1,
        ;
        assert(0 <= s * t && s * t + (l - 1) * st * t <= (d - 1) * t && 0 <= (l - 1) * st * t
            && (l >= 2 ==> st * t <= (l - 1) * st * t) && 0 <= st * t && 0 <= (d - 1) * t)
            by (nonlinear_arith)
            requires
                s >= 0,
                t >= 0,
                l >= 1,
                st >= 1,
                s + (l - 1) * st <= d - 1,
        ;
        assert(product(shape.drop_first()) > 0) by {
            lemma_product_positive(sizes);
            lemma_product_positive(sizes.drop_first());
            lemma_product_positive(shape.drop_first());
            assert forall|a: int| 0 <= a < shape.drop_first().len() implies shape.drop_first()[a]
                > 0 by {
                assert(axis_in_range(shape[a + 1], start[a + 1], lengths[a + 1], steps[a + 1]));
                assert(sizes[a + 1] > 0);
            }
        }
        lemma_span_nonnegative(shape.drop_first(), strides.drop_first());
        lemma_slice_inside(
            shape.drop_first(),
            strides.drop_first(),
            start.drop_first(),
            lengths.drop_first(),
            steps.drop_first(),
        );
        let room = product(shape.drop_first()) as int;
        if l >= 2 {
            assert(taken[0] == st * t);
            assert((l - 1) * taken[0] == (l - 1) * st * t) by (nonlinear_arith)
                requires
                    taken[0] == st * t,
            ;
        } else {
            assert((l - 1) * taken[0] == 0 && (l - 1) * st * t == 0) by (nonlinear_arith)
                requires
                    l == 1,
            ;
        }
        assert(l * inner <= d * room) by (nonlinear_arith)
            requires
                1 <= l <= d,
                0 < inner <= room,
        ;
    }
}

/// Whether one axis of a slice stays inside a dimension of size `d`.
pub fn axis_fits(d: usize, start: isize, length: isize, step: isize) -> (fits: bool)
    ensures
        fits == axis_in_range(d, start, length, step),
{
    if start < 0 || length < 0 || step < 1 {
        return false;
    }
    let s: usize = start as usize;
    if s > d {
        return false;
    }
    if length == 0 {
        return true;
    }
    if s >= d {
        assert((length - 1) * step >= 0) by (nonlinear_arith)
            requires
                length >= 1,
                step >= 1,
        ;
        return false;
    }
    let room: usize = d - 1 - s;
    let more: usize = (length - 1) as usize;
    let st: usize = step as usize;
    let q: usize = room / st;
    proof {
        lemma_fundamental_div_mod(room as int, st as int);
        lemma_mod_bound(room as int, st as int);
        if more <= q {
            assert(more * st <= room) by (nonlinear_arith)
                requires
                    more <= q,
                    room == st * q + room % st,
                    0 <= (room % st),
                    st >= 1,
            ;
        } else {
            assert(more * st > room) by (nonlinear_arith)
                requires
                    more >= q + 1,
                    room == st * q + room % st,
                    (room % st) < st,
                    st >= 1,
            ;
        }
    }
    more <= q
}

/// A strided window on a tensor, sharing its buffer. On axis `a` the window
/// has `lengths[a]` positions and shows the source's positions
/// `start_indicies[a] + k * strides[a]`. Each of the three lists names every
/// axis. Refused are: a list of another length than the rank; a negative
/// start or length; a step below one; a start beyond the dimension's size,
/// also on an axis of length zero (a start equal to the size is accepted
/// there); and a last sample at or beyond the dimension's size.
pub fn slice(
    tensor: &Tensor,
    start_indicies: Vec<isize>,
    lengths: Vec<isize>,
    strides: Vec<isize>,
) -> (r: Result<Tensor, BridgeError>)
    ensures
        if slice_in_range(tensor@.shape, start_indicies@, lengths@, strides@) {
            r matches Ok(t) && t@ == tensor@.sliced(start_indicies@, lengths@, strides@)
                && t@.valid()
        } else {
            r matches Err(e) && e == BridgeError::IndexOutOfRange
        },
{
    proof {
        use_type_invariant(tensor);
    }
    let shape = tensor.sizes();
    let steps = tensor.steps();
    let rank: usize = shape.len();
    if start_indicies.len() != rank || lengths.len() != rank || strides.len() != rank {
        return Err(BridgeError::IndexOutOfRange);
    }
    let mut sizes: Vec<usize> = Vec::new();
    let mut taken: Vec<usize> = Vec::new();
    let mut a: usize = 0;
    while a < rank
        invariant
            rank == tensor@.shape.len(),
            rank == start_indicies@.len(),
            rank == lengths@.len(),
            rank == strides@.len(),
            a <= rank,
            shape@ == tensor@.shape,
            sizes@.len() == a,
            taken@.len() == a,
            forall|b: int|
                0 <= b < a ==> axis_in_range(
                    tensor@.shape[b],
                    #[trigger] start_indicies@[b],
                    lengths@[b],
                    strides@[b],
                ),
            forall|b: int| 0 <= b < a ==> sizes@[b] == lengths@[b] as usize,
        decreases rank - a,
    {
        if !axis_fits(shape[a], start_indicies[a], lengths[a], strides[a]) {
            assert(!axis_in_range(
                tensor@.shape[a as int],
                start_indicies@[a as int],
                lengths@[a as int],
                strides@[a as int],
            ));
            return Err(BridgeError::IndexOutOfRange);
        }
        sizes.push(lengths[a] as usize);
        taken.push(0);
        a += 1;
    }
    assert(sizes@ =~= sizes_of(lengths@));
    let count = element_count(&sizes);
    if count == Some(0) {
        let zero = row_major_strides(&sizes);
        return Ok(Tensor::from_parts(tensor.dtype(), sizes, zero, 0, tensor.lend()));
    }
    let ghost w = tensor@.dtype.width() as int;
    let ghost whole = span(tensor@.shape, tensor@.strides);
    proof {
        lemma_product_positive(sizes@);
        lemma_product_positive(tensor@.shape);
        assert forall|b: int| 0 <= b < rank implies tensor@.shape[b] > 0 by {
            assert(axis_in_range(
                tensor@.shape[b],
                start_indicies@[b],
                lengths@[b],
                strides@[b],
            ));
            assert(sizes@[b] > 0);
            assert((lengths@[b] - 1) * strides@[b] >= 0) by (nonlinear_arith)
                requires
                    lengths@[b] >= 1,
                    strides@[b] >= 1,
            ;
        }
        lemma_span_nonnegative(tensor@.shape, tensor@.strides);
        assert(tensor@.offset + whole + 1 <= usize::MAX) by (nonlinear_arith)
            requires
                (tensor@.offset + whole + 1) * w <= usize::MAX,
                tensor@.offset + whole >= 0,
                w >= 1,
        ;
        lemma_slice_inside(
            tensor@.shape,
            tensor@.strides,
            start_indicies@,
            lengths@,
            strides@,
        );
    }
    let mut first: usize = 0;
    let mut a: usize = rank;
    proof {
        assert(start_indicies@.skip(rank as int) =~= Seq::<isize>::empty());
    }
    while a > 0
        invariant
            tensor@.valid(),
            rank == tensor@.shape.len(),
            rank == start_indicies@.len(),
            rank == lengths@.len(),
            rank == strides@.len(),
            rank == taken@.len(),
            a <= rank,
            steps@ == tensor@.strides,
            sizes@ == sizes_of(lengths@),
            product(sizes@) > 0,
            product(tensor@.shape) > 0,
            whole == span(tensor@.shape, tensor@.strides),
            0 <= whole <= usize::MAX,
            slice_in_range(tensor@.shape, start_indicies@, lengths@, strides@),
            first == start_offset(start_indicies@.skip(a as int), tensor@.strides.skip(a as int)),
            first <= whole,
            forall|b: int|
                a <= b < rank ==> taken@[b] == sliced_strides(lengths@, strides@, tensor@.strides)[b],
        decreases a,
    {
        a -= 1;
        let t: usize = steps[a];
        proof {
            let shape_a = tensor@.shape.skip(a as int);
            let strides_a = tensor@.strides.skip(a as int);
            let start_a = start_indicies@.skip(a as int);
            let lengths_a = lengths@.skip(a as int);
            let steps_a = strides@.skip(a as int);
            assert forall|b: int| 0 <= b < shape_a.len() implies axis_in_range(
                shape_a[b],
                #[trigger] start_a[b],
                lengths_a[b],
                steps_a[b],
            ) by {
                assert(axis_in_range(
                    tensor@.shape[a + b],
                    start_indicies@[a + b],
                    lengths@[a + b],
                    strides@[a + b],
                ));
            }
            assert(sizes_of(lengths_a) =~= sizes@.skip(a as int));
            lemma_product_skip(sizes@, a as int);
            lemma_span_skip(tensor@.shape, tensor@.strides, a as int);
            lemma_slice_inside(shape_a, strides_a, start_a, lengths_a, steps_a);
            assert(start_a.drop_first() =~= start_indicies@.skip(a + 1));
            assert(strides_a.drop_first() =~= tensor@.strides.skip(a + 1));
        }
        first = first + (start_indicies[a] as usize) * t;
        let step: usize = if lengths[a] <= 1 {
            t
        } else {
            (strides[a] as usize) * t
        };
        taken.set(a, step);
    }
    proof {
        assert(start_indicies@.skip(0) =~= start_indicies@);
        assert(tensor@.strides.skip(0) =~= tensor@.strides);
        assert(taken@ =~= sliced_strides(lengths@, strides@, tensor@.strides));
        let mine = span(sizes@, taken@);
        assert(product(sizes@) * w <= product(tensor@.shape) * w) by (nonlinear_arith)
            requires
                product(sizes@) <= product(tensor@.shape),
                w >= 1,
        ;
        assert((tensor@.offset + first + mine + 1) * w <= (tensor@.offset + whole + 1) * w)
            by (nonlinear_arith)
            requires
                first + mine <= whole,
                w >= 1,
        ;
    }
    Ok(Tensor::from_parts(tensor.dtype(), sizes, taken, tensor.first() + first, tensor.lend()))
}

/// The slice that starts at zero on every axis, takes every position and
/// steps by one shows the same tensor.
pub proof fn lemma_slice_whole(
    v: TensorView,
    start: Seq<isize>,
    lengths: Seq<isize>,
    steps: Seq<isize>,
)
    requires
        v.valid(),
        start.len() == v.shape.len(),
        lengths.len() == v.shape.len(),
        steps.len() == v.shape.len(),
        forall|a: int| 0 <= a < v.shape.len() ==> start[a] == 0,
        forall|a: int| 0 <= a < v.shape.len() ==> lengths[a] == v.shape[a],
        forall|a: int| 0 <= a < v.shape.len() ==> steps[a] == 1,
    ensures
        slice_in_range(v.shape, start, lengths, steps),
        v.sliced(start, lengths, steps).same_as(v),
{
    let w = v.sliced(start, lengths, steps);
    assert(sizes_of(lengths) =~= v.shape);
    if product(v.shape) == 0 {
        assert(w.contents() =~= v.contents());
    } else {
        lemma_start_at_zero(start, v.strides);
        assert(sliced_strides(lengths, steps, v.strides) =~= v.strides);
    }
}

/// A slice that starts at zero on every axis starts at the source's first
/// element.
pub proof fn lemma_start_at_zero(start: Seq<isize>, strides: Seq<usize>)
    requires
        forall|a: int| 0 <= a < start.len() ==> start[a] == 0,
    ensures
        start_offset(start, strides) == 0,
    decreases start.len(),
{
    if start.len() > 0 && strides.len() > 0 {
        assert forall|a: int| 0 <= a < start.drop_first().len() implies start.drop_first()[a]
            == 0 by {
            assert(start[a + 1] == 0);
        }
        lemma_start_at_zero(start.drop_first(), strides.drop_first());
    }
}

/// The source position, on each axis, of the slice's element at `index`.
pub open spec fn picked(start: Seq<isize>, steps: Seq<isize>, index: Seq<int>) -> Seq<int> {
    Seq::new(index.len(), |a: int| start[a] + index[a] * steps[a])
}

/// Stepping through the slice's strides from its first element reaches the
/// place that the source's strides reach from the picked positions.
pub proof fn lemma_picked_position(
    start: Seq<isize>,
    lengths: Seq<isize>,
    steps: Seq<isize>,
    strides: Seq<usize>,
    index: Seq<int>,
)
    requires
        start.len() == index.len(),
        lengths.len() == index.len(),
        steps.len() == index.len(),
        strides.len() == index.len(),
        forall|a: int| 0 <= a < index.len() ==> 0 <= #[trigger] index[a] < lengths[a],
        forall|a: int|
            0 <= a < index.len() && lengths[a] >= 2 ==> 0 <= #[trigger] steps[a] * strides[a]
                <= usize::MAX,
    ensures
        start_offset(start, strides) + position_of(
            index,
            sliced_strides(lengths, steps, strides),
        ) == position_of(picked(start, steps, index), strides),
    decreases index.len(),
{
    if index.len() > 0 {
        let taken = sliced_strides(lengths, steps, strides);
        let from = picked(start, steps, index);
        assert(taken.drop_first() =~= sliced_strides(
            lengths.drop_first(),
            steps.drop_first(),
            strides.drop_first(),
        ));
        assert(from.drop_first() =~= picked(
            start.drop_first(),
            steps.drop_first(),
            index.drop_first(),
        ));
        assert forall|a: int| 0 <= a < index.drop_first().len() implies 0
            <= #[trigger] index.drop_first()[a] < lengths.drop_first()[a] by {
            assert(0 <= index[a + 1] < lengths[a + 1]);
        }
        assert forall|a: int|
            0 <= a < index.drop_first().len() && lengths.drop_first()[a] >= 2 implies 0
            <= #[trigger] steps.drop_first()[a] * strides.drop_first()[a] <= usize::MAX by {
            assert(0 <= steps[a + 1] * strides[a + 1] <= usize::MAX);
        }
        lemma_picked_position(
            start.drop_first(),
            lengths.drop_first(),
            steps.drop_first(),
            strides.drop_first(),
            index.drop_first(),
        );
        let i = index[0];
        let s = start[0] as int;
        let st = steps[0] as int;
        let t = strides[0] as int;
        assert(0 <= index[0] < lengths[0]);
        if lengths[0] >= 2 {
            assert(0 <= steps[0] * strides[0] <= usize::MAX);
            assert(taken[0] == st * t);
        } else {
            assert(i == 0);
        }
        assert(s * t + i * taken[0] == (s + i * st) * t) by (nonlinear_arith)
            requires
                i == 0 || taken[0] == st * t,
        ;
    }
}

/// What a slice shows: its element number `k` is the source's element at the
/// picked position on each axis, `start + index * step`.
pub proof fn lemma_slice_element(
    v: TensorView,
    start: Seq<isize>,
    lengths: Seq<isize>,
    steps: Seq<isize>,
    k: int,
)
    requires
        v.valid(),
        slice_in_range(v.shape, start, lengths, steps),
        0 <= k < product(sizes_of(lengths)),
    ensures
        v.sliced(start, lengths, steps).offset + offset_of(
            v.sliced(start, lengths, steps).shape,
            v.sliced(start, lengths, steps).strides,
            k,
        ) == v.offset + position_of(
            picked(start, steps, index_of(sizes_of(lengths), k)),
            v.strides,
        ),
        forall|a: int|
            0 <= a < v.shape.len() ==> 0 <= #[trigger] picked(
                start,
                steps,
                index_of(sizes_of(lengths), k),
            )[a] < v.shape[a],
{
    let sizes = sizes_of(lengths);
    let index = index_of(sizes, k);
    let w = v.dtype.width() as int;
    lemma_index_inside(sizes, k);
    lemma_product_positive(sizes);
    lemma_product_positive(v.shape);
    assert forall|a: int| 0 <= a < v.shape.len() implies 0 <= #[trigger] index[a]
        < lengths[a] by {
        assert(axis_in_range(v.shape[a], start[a], lengths[a], steps[a]));
        assert(0 <= index[a] < sizes[a]);
    }
    assert forall|a: int| 0 <= a < v.shape.len() implies 0 <= #[trigger] picked(
        start,
        steps,
        index,
    )[a] < v.shape[a] by {
        assert(axis_in_range(v.shape[a], start[a], lengths[a], steps[a]));
        assert(0 <= index[a] < lengths[a]);
        let i = index[a];
        let l = lengths[a] as int;
        let st = steps[a] as int;
        assert(0 <= i * st <= (l - 1) * st) by (nonlinear_arith)
            requires
                0 <= i <= l - 1,
                st >= 1,
        ;
    }
    assert forall|a: int| 0 <= a < v.shape.len() implies #[trigger] v.shape[a] > 0 by {
        assert(0 <= picked(start, steps, index)[a] < v.shape[a]);
    }
    lemma_span_nonnegative(v.shape, v.strides);
    let whole = span(v.shape, v.strides);
    assert(v.offset + whole + 1 <= usize::MAX) by (nonlinear_arith)
        requires
            (v.offset + whole + 1) * w <= usize::MAX,
            v.offset + whole >= 0,
            w >= 1,
    ;
    assert forall|a: int| 0 <= a < index.len() && lengths[a] >= 2 implies 0
        <= #[trigger] steps[a] * v.strides[a] <= usize::MAX by {
        let shape_a = v.shape.skip(a);
        let strides_a = v.strides.skip(a);
        let start_a = start.skip(a);
        let lengths_a = lengths.skip(a);
        let steps_a = steps.skip(a);
        assert forall|b: int| 0 <= b < shape_a.len() implies axis_in_range(
            shape_a[b],
            #[trigger] start_a[b],
            lengths_a[b],
            steps_a[b],
        ) by {
            assert(axis_in_range(v.shape[a + b], start[a + b], lengths[a + b], steps[a + b]));
        }
        assert(sizes_of(lengths_a) =~= sizes.skip(a));
        lemma_product_skip(sizes, a);
        lemma_span_skip(v.shape, v.strides, a);
        lemma_slice_inside(shape_a, strides_a, start_a, lengths_a, steps_a);
    }
    lemma_picked_position(start, lengths, steps, v.strides, index);
    lemma_offset_is_position(sizes, sliced_strides(lengths, steps, v.strides), k);
}

} // verus!
