use std::sync::Arc;
use vstd::prelude::*;
use crate::dtype::{cast_allowed, castable, dtype_of_label, DType};
use crate::error::BridgeError;
use crate::shape::{
    element_count,
    lemma_product_skip,
    lemma_product_split,
    lemma_product_unfold,
    lemma_row_major_span,
    lemma_whole_elements,
    product,
    row_major_strides,
};
use crate::tensor::{lemma_contiguous_contents, native_is_little, Tensor, TensorView};

verus! {

/// Two shapes differ on the given axis at most.
pub open spec fn agree_off_axis(a: Seq<usize>, b: Seq<usize>, axis: int) -> bool {
    &&& a.len() == b.len()
    &&& forall|i: int| 0 <= i < a.len() && i != axis ==> a[i] == b[i]
}

/// What each tensor is, for a list of tensors.
pub open spec fn views_of(tensors: Seq<Tensor>) -> Seq<TensorView> {
    Seq::new(tensors.len(), |i: int| tensors[i]@)
}

/// The sizes of the first `upto` tensors on the axis, added up.
pub open spec fn axis_total(views: Seq<TensorView>, axis: int, upto: int) -> int
    decreases upto,
{
    if upto <= 0 {
        0
    } else {
        axis_total(views, axis, upto - 1) + views[upto - 1].shape[axis]
    }
}

/// The shape of the tensors joined along the axis: the first one's, with the
/// sizes on the axis added up.
pub open spec fn joined_shape(views: Seq<TensorView>, axis: int) -> Seq<usize> {
    views[0].shape.update(axis, axis_total(views, axis, views.len() as int) as usize)
}

/// The number of bytes that one tensor gives to each row of the joined
/// tensor: its elements at one position of the axes before `axis`.
pub open spec fn chunk_of(v: TensorView, axis: int, tw: int) -> int {
    v.shape[axis] * product(v.shape.skip(axis + 1)) * tw
}

/// Row `o` of the joined tensor as far as the first `upto` tensors fill it.
pub open spec fn joined_row(
    views: Seq<TensorView>,
    target: DType,
    little: bool,
    axis: int,
    o: int,
    upto: int,
) -> Seq<u8>
    decreases upto,
{
    if upto <= 0 {
        Seq::empty()
    } else {
        let c = chunk_of(views[upto - 1], axis, target.width() as int);
        joined_row(views, target, little, axis, o, upto - 1) + views[upto - 1].exported(
            target,
            little,
        ).subrange(o * c, (o + 1) * c)
    }
}

/// The first `upto` rows of the joined tensor.
pub open spec fn joined_rows(
    views: Seq<TensorView>,
    target: DType,
    little: bool,
    axis: int,
    upto: int,
) -> Seq<u8>
    decreases upto,
{
    if upto <= 0 {
        Seq::empty()
    } else {
        joined_rows(views, target, little, axis, upto - 1) + joined_row(
            views,
            target,
            little,
            axis,
            upto - 1,
            views.len() as int,
        )
    }
}

/// The contents of the tensors joined along the axis, each element cast to
/// the target type: for each position of the axes before `axis`, in
/// row-major order, what the first tensor holds there, then the second, and
/// so on.
pub open spec fn joined_bytes(views: Seq<TensorView>, target: DType, little: bool, axis: int) -> Seq<
    u8,
> {
    if product(joined_shape(views, axis)) == 0 {
        Seq::empty()
    } else {
        joined_rows(views, target, little, axis, product(views[0].shape.take(axis)) as int)
    }
}

/// The element type and shape of a join, or why there is none. The axis is
/// tested first, against the first tensor's rank, then the shapes; only then
/// is the target's label read and a cast that this crate leaves to its
/// caller refused. The joined tensor must fit in memory like any other.
pub open spec fn join_plan(views: Seq<TensorView>, label: Seq<char>, bits: int, axis: int) -> Result<
    (DType, Seq<usize>),
    BridgeError,
> {
    if views.len() == 0 {
        Err(BridgeError::ShapeMismatch)
    } else if axis < 0 || axis >= views[0].shape.len() {
        Err(BridgeError::IndexOutOfRange)
    } else if exists|i: int|
        0 <= i < views.len() && !agree_off_axis(#[trigger] views[i].shape, views[0].shape, axis) {
        Err(BridgeError::ShapeMismatch)
    } else {
        match dtype_of_label(label, bits) {
            None => Err(BridgeError::UnsupportedDType),
            Some(target) => if exists|i: int|
                0 <= i < views.len() && !cast_allowed(#[trigger] views[i].dtype, target) {
                Err(BridgeError::UnsupportedDType)
            } else if axis_total(views, axis, views.len() as int) > usize::MAX || product(
                joined_shape(views, axis),
            ) * target.width() > usize::MAX {
                Err(BridgeError::ShapeMismatch)
            } else {
                Ok((target, joined_shape(views, axis)))
            },
        }
    }
}

/// The sizes on the axis add up to no less with more tensors.
pub proof fn lemma_axis_total_grows(views: Seq<TensorView>, axis: int, i: int, n: int)
    requires
        0 <= i <= n,
    ensures
        0 <= axis_total(views, axis, i) <= axis_total(views, axis, n),
    decreases n,
{
    if n > 0 {
        if i < n {
            lemma_axis_total_grows(views, axis, i, n - 1);
        } else {
            lemma_axis_total_grows(views, axis, i - 1, n - 1);
        }
    }
}

/// How the element counts of a join and of one of its tensors are made up of
/// the rows before the axis, the sizes on it and the elements behind it.
pub proof fn lemma_join_counts(views: Seq<TensorView>, axis: int, i: int)
    requires
        0 <= i < views.len(),
        0 <= axis < views[0].shape.len(),
        agree_off_axis(views[i].shape, views[0].shape, axis),
        axis_total(views, axis, views.len() as int) <= usize::MAX,
    ensures
        product(joined_shape(views, axis)) == product(views[0].shape.take(axis)) * (axis_total(
            views,
            axis,
            views.len() as int,
        ) * product(views[0].shape.skip(axis + 1))),
        product(views[i].shape) == product(views[0].shape.take(axis)) * (views[i].shape[axis]
            * product(views[0].shape.skip(axis + 1))),
        product(views[i].shape.skip(axis + 1)) == product(views[0].shape.skip(axis + 1)),
        product(joined_shape(views, axis).skip(axis + 1)) == product(
            views[0].shape.skip(axis + 1),
        ),
        product(joined_shape(views, axis).take(axis)) == product(views[0].shape.take(axis)),
        views[i].shape[axis] <= axis_total(views, axis, views.len() as int),
{
    let joined = joined_shape(views, axis);
    let first = views[0].shape;
    let mine = views[i].shape;
    lemma_axis_total_grows(views, axis, 0, views.len() as int);
    lemma_axis_total_grows(views, axis, i, views.len() as int);
    lemma_axis_total_grows(views, axis, i + 1, views.len() as int);
    assert(joined.take(axis) =~= first.take(axis));
    assert(mine.take(axis) =~= first.take(axis));
    assert(joined.skip(axis + 1) =~= first.skip(axis + 1));
    assert(mine.skip(axis + 1) =~= first.skip(axis + 1));
    lemma_product_split(joined, axis);
    lemma_product_split(mine, axis);
    lemma_product_unfold(joined, axis);
    lemma_product_unfold(mine, axis);
}

/// Whether every tensor's elements can be cast to the target.
fn all_castable(tensors: &Vec<Tensor>, target: DType) -> (all: bool)
    ensures
        all == (forall|j: int|
            0 <= j < tensors@.len() ==> cast_allowed(
                #[trigger] views_of(tensors@)[j].dtype,
                target,
            )),
{
    let ghost views = views_of(tensors@);
    let n: usize = tensors.len();
    let mut i: usize = 0;
    while i < n
        invariant
            n == tensors@.len(),
            views == views_of(tensors@),
            i <= n,
            forall|j: int| 0 <= j < i ==> cast_allowed(#[trigger] views[j].dtype, target),
        decreases n - i,
    {
        assert(tensors@[i as int]@ == views[i as int]);
        if !castable(tensors[i].dtype(), target) {
            assert(!cast_allowed(views[i as int].dtype, target));
            return false;
        }
        i += 1;
    }
    true
}

/// Whether two shapes differ on the given axis at most.
fn agrees(a: &Vec<usize>, b: &Vec<usize>, axis: usize) -> (same: bool)
    ensures
        same == agree_off_axis(a@, b@, axis as int),
{
    let n: usize = a.len();
    if n != b.len() {
        return false;
    }
    let mut i: usize = 0;
    while i < n
        invariant
            n == a@.len(),
            n == b@.len(),
            i <= n,
            forall|j: int| 0 <= j < i && j != axis ==> a@[j] == b@[j],
        decreases n - i,
    {
        if i != axis && a[i] != b[i] {
            return false;
        }
        i += 1;
    }
    true
}

/// Joins the tensors along the axis into a new contiguous tensor that owns
/// its buffer, for a machine of the given byte order. Every element is cast
/// to the type named by `label` and `bits`; integers and booleans are cast to
/// integers, any other type only to itself. The tensors must agree on every
/// other axis, and the axis must be one of theirs.
pub fn concatenate_in_order(
    tensors: &Vec<Tensor>,
    label: &str,
    bits: usize,
    axis: i32,
    little: bool,
) -> (r: Result<Tensor, BridgeError>)
    ensures
        match join_plan(views_of(tensors@), label@, bits as int, axis as int) {
            Err(error) => r matches Err(e) && e == error,
            Ok((target, shape)) => r matches Ok(t) && t@.valid() && t@.contiguous() && t@.dtype
                == target && t@.shape == shape && t@.contents() == joined_bytes(
                views_of(tensors@),
                target,
                little,
                axis as int,
            ),
        },
{
    let ghost views = views_of(tensors@);
    let n: usize = tensors.len();
    if n == 0 {
        return Err(BridgeError::ShapeMismatch);
    }
    if axis < 0 {
        return Err(BridgeError::IndexOutOfRange);
    }
    let ax: usize = axis as usize;
    let first = tensors[0].sizes();
    if ax >= first.len() {
        return Err(BridgeError::IndexOutOfRange);
    }
    let mut total: usize = 0;
    let mut fits: bool = true;
    let mut i: usize = 0;
    while i < n
        invariant
            n == tensors@.len(),
            views == views_of(tensors@),
            i <= n,
            n > 0,
            ax == axis,
            first@ == views[0].shape,
            ax < first@.len(),
            forall|j: int| 0 <= j < i ==> agree_off_axis(#[trigger] views[j].shape, first@, ax as int),
            fits ==> total == axis_total(views, ax as int, i as int),
            !fits ==> axis_total(views, ax as int, i as int) > usize::MAX,
        decreases n - i,
    {
        assert(tensors@[i as int]@ == views[i as int]);
        let sizes = tensors[i].sizes();
        if !agrees(sizes, first, ax) {
            assert(!agree_off_axis(views[i as int].shape, first@, ax as int));
            return Err(BridgeError::ShapeMismatch);
        }
        if fits {
            match total.checked_add(sizes[ax]) {
                Some(sum) => {
                    total = sum;
                },
                None => {
                    fits = false;
                },
            }
        }
        i += 1;
    }
    let target = match DType::from_label(label, bits) {
        Some(target) => target,
        None => {
            return Err(BridgeError::UnsupportedDType);
        },
    };
    let tw: usize = target.byte_width();
    if !all_castable(tensors, target) {
        return Err(BridgeError::UnsupportedDType);
    }
    if !fits {
        return Err(BridgeError::ShapeMismatch);
    }
    let mut joined: Vec<usize> = first.clone();
    joined.set(ax, total);
    assert(joined@ =~= joined_shape(views, ax as int));
    let count: usize = match element_count(&joined) {
        Some(count) => count,
        None => {
            assert(product(joined@) * tw > usize::MAX) by (nonlinear_arith)
                requires
                    product(joined@) > usize::MAX,
                    tw >= 1,
            ;
            return Err(BridgeError::ShapeMismatch);
        },
    };
    if count.checked_mul(tw).is_none() {
        return Err(BridgeError::ShapeMismatch);
    }
    let steps = row_major_strides(&joined);
    if count == 0 {
        proof {
            lemma_whole_elements(0, tw as int);
        }
        let t = Tensor::from_parts(target, joined, steps, 0, Arc::new(Vec::new()));
        proof {
            lemma_contiguous_contents(t@);
        }
        return Ok(t);
    }
    let inner: usize = steps[ax];
    let ghost outer_rows = product(first@.take(ax as int)) as int;
    proof {
        lemma_join_counts(views, ax as int, 0);
        lemma_product_skip(joined@, ax + 1);
        lemma_product_skip(joined@, ax as int);
        lemma_product_unfold(joined@, ax as int);
        assert(inner == product(first@.skip(ax + 1)));
        assert(count == outer_rows * (total * inner));
        assert(total * inner == product(joined@.skip(ax as int)));
    }
    let row: usize = total * inner;
    let outer: usize = count / row;
    proof {
        assert(outer == outer_rows) by (nonlinear_arith)
            requires
                count == outer_rows * row,
                row > 0,
                outer == count / row,
        ;
        assert(outer >= 1) by (nonlinear_arith)
            requires
                count == outer * row,
                count > 0,
                row > 0,
                outer >= 0,
        ;
        assert(row * tw <= count * tw) by (nonlinear_arith)
            requires
                count == outer * row,
                outer >= 1,
                row > 0,
                tw >= 1,
        ;
    }
    let mut parts: Vec<Vec<u8>> = Vec::new();
    i = 0;
    while i < n
        invariant
            n == tensors@.len(),
            views == views_of(tensors@),
            forall|j: int| 0 <= j < n ==> agree_off_axis(#[trigger] views[j].shape, first@, ax as int),
            n > 0,
            first@ == views[0].shape,
            ax < first@.len(),
            total == axis_total(views, ax as int, n as int),
            tw == target.width(),
            inner == product(first@.skip(ax + 1)),
            outer == product(first@.take(ax as int)),
            row == total * inner,
            count == outer * row,
            count * tw <= usize::MAX,
            i <= n,
            parts@.len() == i,
            forall|j: int| 0 <= j < i ==> (#[trigger] parts@[j])@ == views[j].exported(target, little),
        decreases n - i,
    {
        proof {
            lemma_join_counts(views, ax as int, i as int);
            let d = views[i as int].shape[ax as int] as int;
            assert(outer * (d * inner) * tw <= outer * (total * inner) * tw) by (nonlinear_arith)
                requires
                    0 <= d <= total,
                    outer >= 0,
                    inner >= 0,
                    tw >= 0,
            ;
            assert(tensors@[i as int]@ == views[i as int]);
        }
        parts.push(tensors[i].gather(target, little));
        i += 1;
    }
    let mut out: Vec<u8> = Vec::new();
    let mut o: usize = 0;
    while o < outer
        invariant
            n == tensors@.len(),
            n == parts@.len(),
            views == views_of(tensors@),
            forall|j: int| 0 <= j < n ==> agree_off_axis(#[trigger] views[j].shape, first@, ax as int),
            forall|j: int| 0 <= j < n ==> (#[trigger] parts@[j])@ == views[j].exported(target, little),
            n > 0,
            first@ == views[0].shape,
            ax < first@.len(),
            total == axis_total(views, ax as int, n as int),
            tw == target.width(),
            1 <= tw <= 8,
            inner == product(first@.skip(ax + 1)),
            outer == product(first@.take(ax as int)),
            row == total * inner,
            count == outer * row,
            count * tw <= usize::MAX,
            o <= outer,
            out@.len() == o * (row * tw),
            out@ == joined_rows(views, target, little, ax as int, o as int),
        decreases outer - o,
    {
        let ghost before = out@;
        let mut j: usize = 0;
        proof {
            assert((o + 1) * (row * tw) <= outer * (row * tw)) by (nonlinear_arith)
                requires
                    o + 1 <= outer,
                    row * tw >= 0,
            ;
            assert(outer * (row * tw) == count * tw) by (nonlinear_arith)
                requires
                    count == outer * row,
            ;
            assert((o + 1) * (row * tw) == o * (row * tw) + row * tw) by (nonlinear_arith);
        }
        while j < n
            invariant
                n == tensors@.len(),
                n == parts@.len(),
                views == views_of(tensors@),
                forall|j: int|
                    0 <= j < n ==> agree_off_axis(#[trigger] views[j].shape, first@, ax as int),
                forall|j: int|
                    0 <= j < n ==> (#[trigger] parts@[j])@ == views[j].exported(target, little),
                n > 0,
                first@ == views[0].shape,
                ax < first@.len(),
                total == axis_total(views, ax as int, n as int),
                tw == target.width(),
                1 <= tw <= 8,
                inner == product(first@.skip(ax + 1)),
                outer == product(first@.take(ax as int)),
                row == total * inner,
                count == outer * row,
                count * tw <= usize::MAX,
                o < outer,
                o * (row * tw) + row * tw <= usize::MAX,
                j <= n,
                out@.len() == o * (row * tw) + axis_total(views, ax as int, j as int) * inner * tw,
                out@ == before + joined_row(views, target, little, ax as int, o as int, j as int),
            decreases n - j,
        {
            proof {
                assert(tensors@[j as int]@ == views[j as int]);
                assert(agree_off_axis(views[j as int].shape, first@, ax as int));
            }
            let d: usize = tensors[j].sizes()[ax];
            let ghost filled = out@;
            let ghost part = views[j as int].exported(target, little);
            proof {
                lemma_join_counts(views, ax as int, j as int);
                lemma_axis_total_grows(views, ax as int, j + 1, n as int);
                lemma_axis_total_grows(views, ax as int, j as int, n as int);
                let sofar = axis_total(views, ax as int, j as int);
                assert(tensors@[j as int]@ == views[j as int]);
                assert((sofar + d) * inner * tw <= total * inner * tw && d * inner <= total
                    * inner && d * inner * tw <= total * inner * tw && (sofar + d) * inner * tw
                    == sofar * inner * tw + d * inner * tw && 0 <= d * inner && 0 <= sofar * inner
                    * tw) by (nonlinear_arith)
                    requires
                        0 <= sofar,
                        0 <= d,
                        sofar + d <= total,
                        inner >= 0,
                        tw >= 0,
                ;
                assert(row * tw == total * inner * tw);
                assert(part.len() == outer * (d * inner) * tw);
                assert((o + 1) * (d * inner * tw) <= outer * (d * inner) * tw && o * (d * inner
                    * tw) + d * inner * tw == (o + 1) * (d * inner * tw) && 0 <= o * (d * inner
                    * tw)) by (nonlinear_arith)
                    requires
                        0 <= o,
                        o + 1 <= outer,
                        0 <= d * inner,
                        tw >= 0,
                ;
                assert(outer * (d * inner) * tw <= outer * (total * inner) * tw)
                    by (nonlinear_arith)
                    requires
                        0 <= d * inner <= total * inner,
                        outer >= 0,
                        tw >= 0,
                ;
                assert(outer * (total * inner) * tw == count * tw);
            }
            let c: usize = d * inner * tw;
            let from: usize = o * c;
            let mut b: usize = 0;
            while b < c
                invariant
                    j < n,
                    n == parts@.len(),
                    parts@[j as int]@ == part,
                    from + c <= part.len(),
                    part.len() <= usize::MAX,
                    b <= c,
                    filled.len() + c <= usize::MAX,
                    out@.len() == filled.len() + b,
                    out@ == filled + part.subrange(from as int, from + b),
                decreases c - b,
            {
                let byte: u8 = parts[j][from + b];
                out.push(byte);
                proof {
                    assert(out@ =~= filled + part.subrange(from as int, from + b + 1));
                }
                b += 1;
            }
            proof {
                assert(chunk_of(views[j as int], ax as int, tw as int) == c);
                assert(from + c == (o + 1) * c);
                assert(out@ =~= before + joined_row(
                    views,
                    target,
                    little,
                    ax as int,
                    o as int,
                    j + 1,
                ));
            }
            j += 1;
        }
        o += 1;
    }
    proof {
        assert(outer * (row * tw) == count * tw) by (nonlinear_arith)
            requires
                count == outer * row,
        ;
    }
    proof {
        lemma_row_major_span(joined@);
        lemma_whole_elements(count as int, tw as int);
    }
    let t = Tensor::from_parts(target, joined, steps, 0, Arc::new(out));
    proof {
        lemma_contiguous_contents(t@);
    }
    Ok(t)
}

/// Joins the tensors along the axis into a new contiguous tensor that owns
/// its buffer, in this machine's byte order; see `concatenate_in_order`.
pub fn concatenate(tensors: &Vec<Tensor>, label: &str, bits: usize, axis: i32) -> (r: Result<
    Tensor,
    BridgeError,
>)
    ensures
        match join_plan(views_of(tensors@), label@, bits as int, axis as int) {
            Err(error) => r matches Err(e) && e == error,
            Ok((target, shape)) => r matches Ok(t) && t@.valid() && t@.contiguous() && t@.dtype
                == target && t@.shape == shape && (t@.contents() == joined_bytes(
                views_of(tensors@),
                target,
                true,
                axis as int,
            ) || t@.contents() == joined_bytes(views_of(tensors@), target, false, axis as int)),
        },
{
    let little = native_is_little();
    concatenate_in_order(tensors, label, bits, axis, little)
}

/// A tensor joined with itself along its first axis is twice as long on that
/// axis and as before on the others, and holds its elements twice. The join
/// must fit in memory.
pub proof fn lemma_join_with_itself(
    v: TensorView,
    label: Seq<char>,
    bits: int,
    target: DType,
    little: bool,
)
    requires
        v.valid(),
        v.shape.len() > 0,
        dtype_of_label(label, bits) == Some(target),
        cast_allowed(v.dtype, target),
        2 * v.shape[0] <= usize::MAX,
        2 * (product(v.shape) * target.width()) <= usize::MAX,
    ensures
        join_plan(seq![v, v], label, bits, 0) == Ok::<(DType, Seq<usize>), BridgeError>(
            (target, v.shape.update(0, (2 * v.shape[0]) as usize)),
        ),
        joined_bytes(seq![v, v], target, little, 0) == v.exported(target, little) + v.exported(
            target,
            little,
        ),
{
    let views = seq![v, v];
    let tw = target.width() as int;
    let part = v.exported(target, little);
    assert(axis_total(views, 0, 2) == v.shape[0] + v.shape[0]) by {
        assert(axis_total(views, 0, 1) == axis_total(views, 0, 0) + views[0].shape[0]);
        assert(axis_total(views, 0, 2) == axis_total(views, 0, 1) + views[1].shape[0]);
    }
    let joined = joined_shape(views, 0);
    assert(joined =~= v.shape.update(0, (2 * v.shape[0]) as usize));
    assert(joined.drop_first() =~= v.shape.drop_first());
    assert(v.shape.skip(1) =~= v.shape.drop_first());
    let inner = product(v.shape.drop_first()) as int;
    let d = v.shape[0] as int;
    assert(product(joined) == 2 * product(v.shape) && (2 * product(v.shape)) * tw == 2 * (product(
        v.shape,
    ) * tw) && d * inner * tw == (d * inner) * tw) by (nonlinear_arith)
        requires
            product(joined) == (2 * d) * inner,
            product(v.shape) == d * inner,
    ;
    assert forall|i: int| 0 <= i < views.len() implies cast_allowed(
        #[trigger] views[i].dtype,
        target,
    ) && agree_off_axis(views[i].shape, views[0].shape, 0) by {}
    assert(v.shape.take(0).len() == 0);
    assert(product(v.shape.take(0)) == 1);
    let c = chunk_of(v, 0, tw);
    assert(c == part.len());
    if product(joined) == 0 {
        assert(part.len() == 0) by (nonlinear_arith)
            requires
                product(v.shape) == 0,
                part.len() == product(v.shape) * tw,
        ;
        assert(joined_bytes(views, target, little, 0) =~= part + part);
    } else {
        assert(0 * c == 0 && (0 + 1) * c == c) by (nonlinear_arith);
        assert(part.subrange(0, c) =~= part);
        assert(joined_row(views, target, little, 0, 0, 0) =~= Seq::<u8>::empty());
        assert(joined_row(views, target, little, 0, 0, 1) =~= part);
        assert(joined_row(views, target, little, 0, 0, 2) =~= part + part);
        assert(joined_rows(views, target, little, 0, 0) =~= Seq::<u8>::empty());
        assert(joined_rows(views, target, little, 0, 1) =~= part + part);
    }
}

/// Tensors of which one differs from the first off the axis are not joined,
/// whatever their element types and whatever target is named, where the
/// axis is one of the first tensor's.
pub proof fn lemma_join_mismatch(
    views: Seq<TensorView>,
    label: Seq<char>,
    bits: int,
    axis: int,
    i: int,
)
    requires
        0 <= i < views.len(),
        0 <= axis < views[0].shape.len(),
        !agree_off_axis(views[i].shape, views[0].shape, axis),
    ensures
        join_plan(views, label, bits, axis) == Err::<(DType, Seq<usize>), BridgeError>(
            BridgeError::ShapeMismatch,
        ),
{
}

/// The first `upto` tensors' elements, cast to the target, one tensor after
/// the other.
pub open spec fn parts_in_order(views: Seq<TensorView>, target: DType, little: bool, upto: int) -> Seq<
    u8,
>
    decreases upto,
{
    if upto <= 0 {
        Seq::empty()
    } else {
        parts_in_order(views, target, little, upto - 1) + views[upto - 1].exported(target, little)
    }
}

/// Along the first axis a join holds the tensors' elements one tensor after
/// the other.
pub proof fn lemma_join_first_axis(views: Seq<TensorView>, target: DType, little: bool)
    requires
        views.len() > 0,
        views[0].shape.len() > 0,
        forall|i: int|
            0 <= i < views.len() ==> agree_off_axis(#[trigger] views[i].shape, views[0].shape, 0),
        axis_total(views, 0, views.len() as int) <= usize::MAX,
    ensures
        joined_bytes(views, target, little, 0) == parts_in_order(
            views,
            target,
            little,
            views.len() as int,
        ),
{
    let n = views.len() as int;
    let first = views[0].shape;
    assert(first.take(0).len() == 0);
    assert(product(first.take(0)) == 1);
    lemma_row_is_parts(views, target, little, n);
    if product(joined_shape(views, 0)) == 0 {
        lemma_empty_parts(views, target, little, n);
    } else {
        assert(joined_rows(views, target, little, 0, 0) =~= Seq::<u8>::empty());
        assert(joined_rows(views, target, little, 0, 1) =~= joined_row(
            views,
            target,
            little,
            0,
            0,
            n,
        ));
    }
}

/// Along the first axis the one row of a join is the tensors' elements one
/// tensor after the other.
proof fn lemma_row_is_parts(views: Seq<TensorView>, target: DType, little: bool, upto: int)
    requires
        0 <= upto <= views.len(),
        views.len() > 0,
        views[0].shape.len() > 0,
        forall|i: int|
            0 <= i < views.len() ==> agree_off_axis(#[trigger] views[i].shape, views[0].shape, 0),
    ensures
        joined_row(views, target, little, 0, 0, upto) == parts_in_order(
            views,
            target,
            little,
            upto,
        ),
    decreases upto,
{
    if upto > 0 {
        lemma_row_is_parts(views, target, little, upto - 1);
        let v = views[upto - 1];
        let tw = target.width() as int;
        let part = v.exported(target, little);
        let c = chunk_of(v, 0, tw);
        assert(agree_off_axis(v.shape, views[0].shape, 0));
        lemma_product_unfold(v.shape, 0);
        assert(v.shape.skip(0) =~= v.shape);
        assert(c == part.len());
        assert(0 * c == 0 && (0 + 1) * c == c) by (nonlinear_arith);
        assert(part.subrange(0, c) =~= part);
    }
}

/// Tensors whose join along the first axis has no elements have none
/// themselves.
proof fn lemma_empty_parts(views: Seq<TensorView>, target: DType, little: bool, upto: int)
    requires
        0 <= upto <= views.len(),
        views.len() > 0,
        views[0].shape.len() > 0,
        forall|i: int|
            0 <= i < views.len() ==> agree_off_axis(#[trigger] views[i].shape, views[0].shape, 0),
        axis_total(views, 0, views.len() as int) <= usize::MAX,
        product(joined_shape(views, 0)) == 0,
    ensures
        parts_in_order(views, target, little, upto) == Seq::<u8>::empty(),
    decreases upto,
{
    if upto > 0 {
        lemma_empty_parts(views, target, little, upto - 1);
        let v = views[upto - 1];
        let first = views[0].shape;
        assert(agree_off_axis(v.shape, first, 0));
        lemma_join_counts(views, 0, upto - 1);
        assert(first.take(0).len() == 0);
        assert(product(first.take(0)) == 1);
        let total = axis_total(views, 0, views.len() as int);
        let inner = product(first.skip(1)) as int;
        let d = v.shape[0] as int;
        let tw = target.width() as int;
        assert(d * inner == 0) by (nonlinear_arith)
            requires
                1 * (total * inner) == 0,
                0 <= d <= total,
                inner >= 0,
        ;
        assert(product(v.shape) * tw == 0) by (nonlinear_arith)
            requires
                product(v.shape) == 1 * (d * inner),
                d * inner == 0,
        ;
        assert(v.exported(target, little) =~= Seq::<u8>::empty());
    }
}

/// No tensors are joined along an axis that the first of them does not have,
/// whatever their shapes and element types and whatever target is named.
pub proof fn lemma_join_axis(views: Seq<TensorView>, label: Seq<char>, bits: int, axis: int)
    requires
        views.len() > 0,
        axis < 0 || axis >= views[0].shape.len(),
    ensures
        join_plan(views, label, bits, axis) == Err::<(DType, Seq<usize>), BridgeError>(
            BridgeError::IndexOutOfRange,
        ),
{
}

} // verus!
