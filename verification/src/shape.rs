use vstd::prelude::*;
use vstd::arithmetic::div_mod::{
    lemma_fundamental_div_mod,
    lemma_mod_bound,
    lemma_mod_multiples_basic,
};

verus! {

/// The number of elements of a tensor with the given dimension sizes.
pub open spec fn product(shape: Seq<usize>) -> nat
    decreases shape.len(),
{
    if shape.len() == 0 {
        1
    } else {
        (shape[0] as nat) * product(shape.drop_first())
    }
}

/// No dimension is empty.
pub open spec fn all_positive(shape: Seq<usize>) -> bool {
    forall|i: int| 0 <= i < shape.len() ==> shape[i] > 0
}

/// The buffer position, counted in elements from a tensor's first element, of
/// the element that is number `k` in row-major order.
pub open spec fn offset_of(shape: Seq<usize>, strides: Seq<usize>, k: int) -> int
    decreases shape.len(),
{
    if shape.len() == 0 || strides.len() == 0 {
        0
    } else {
        let inner = product(shape.drop_first()) as int;
        (k / inner) * strides[0] + offset_of(shape.drop_first(), strides.drop_first(), k % inner)
    }
}

/// The position of a tensor's last element, counted from its first.
pub open spec fn span(shape: Seq<usize>, strides: Seq<usize>) -> int
    decreases shape.len(),
{
    if shape.len() == 0 || strides.len() == 0 {
        0
    } else {
        (shape[0] - 1) * strides[0] + span(shape.drop_first(), strides.drop_first())
    }
}

/// The strides of a contiguous row-major tensor: each axis steps over all the
/// axes behind it. A tensor without elements has strides of zero.
pub open spec fn row_major(shape: Seq<usize>) -> Seq<usize> {
    Seq::new(
        shape.len(),
        |i: int|
            if product(shape) == 0 {
                0usize
            } else {
                product(shape.skip(i + 1)) as usize
            },
    )
}

/// A run of `count` elements of `width` bytes each is a whole number of
/// elements long.
pub proof fn lemma_whole_elements(count: int, width: int)
    requires
        width > 0,
    ensures
        (count * width) % width == 0,
{
    lemma_mod_multiples_basic(count, width);
}

/// A shape has elements exactly when none of its dimensions is empty.
pub proof fn lemma_product_positive(shape: Seq<usize>)
    ensures
        product(shape) > 0 <==> all_positive(shape),
    decreases shape.len(),
{
    if shape.len() > 0 {
        let rest = shape.drop_first();
        lemma_product_positive(rest);
        if all_positive(shape) {
            assert forall|i: int| 0 <= i < rest.len() implies rest[i] > 0 by {
                assert(rest[i] == shape[i + 1]);
            }
            assert((shape[0] as nat) * product(rest) > 0) by (nonlinear_arith)
                requires
                    shape[0] > 0,
                    product(rest) > 0,
            ;
        }
        if product(shape) > 0 {
            assert(shape[0] > 0 && product(rest) > 0) by (nonlinear_arith)
                requires
                    (shape[0] as nat) * product(rest) > 0,
            ;
            assert forall|i: int| 0 <= i < shape.len() implies shape[i] > 0 by {
                if i > 0 {
                    assert(rest[i - 1] == shape[i]);
                }
            }
        }
    }
}

/// The elements behind axis `i` are those behind axis `i + 1`, `shape[i]` times.
pub proof fn lemma_product_unfold(shape: Seq<usize>, i: int)
    requires
        0 <= i < shape.len(),
    ensures
        product(shape.skip(i)) == shape[i] * product(shape.skip(i + 1)),
{
    assert(shape.skip(i).drop_first() =~= shape.skip(i + 1));
}

/// In a shape with elements, the axes from `i` on hold at least one element
/// and no more than the whole.
pub proof fn lemma_product_skip(shape: Seq<usize>, i: int)
    requires
        0 <= i <= shape.len(),
        product(shape) > 0,
    ensures
        0 < product(shape.skip(i)) <= product(shape),
    decreases i,
{
    if i == 0 {
        assert(shape.skip(0) =~= shape);
    } else {
        lemma_product_skip(shape, i - 1);
        lemma_product_unfold(shape, i - 1);
        lemma_product_positive(shape);
        let a = shape[i - 1] as int;
        let b = product(shape.skip(i)) as int;
        assert(0 < b <= a * b) by (nonlinear_arith)
            requires
                a > 0,
                b >= 0,
                a * b > 0,
        ;
    }
}

/// Every element lies between the first and the last.
pub proof fn lemma_offset_bound(shape: Seq<usize>, strides: Seq<usize>, k: int)
    requires
        shape.len() == strides.len(),
        0 <= k < product(shape),
    ensures
        0 <= offset_of(shape, strides, k) <= span(shape, strides),
    decreases shape.len(),
{
    if shape.len() > 0 {
        let rest = shape.drop_first();
        let inner = product(rest) as int;
        let d = shape[0] as int;
        let s = strides[0] as int;
        assert(inner > 0 && d > 0) by (nonlinear_arith)
            requires
                d * inner > 0,
                d >= 0,
                inner >= 0,
        ;
        lemma_fundamental_div_mod(k, inner);
        lemma_mod_bound(k, inner);
        let q = k / inner;
        assert(0 <= q <= d - 1) by (nonlinear_arith)
            requires
                0 <= k < d * inner,
                inner > 0,
                k == inner * q + k % inner,
                0 <= k % inner < inner,
        ;
        assert(0 <= q * s <= (d - 1) * s) by (nonlinear_arith)
            requires
                0 <= q <= d - 1,
                s >= 0,
        ;
        lemma_offset_bound(rest, strides.drop_first(), k % inner);
    }
}

/// The row-major strides of a shape's tail are the tail of its strides.
pub proof fn lemma_row_major_tail(shape: Seq<usize>)
    requires
        shape.len() > 0,
        product(shape) > 0,
    ensures
        row_major(shape).drop_first() == row_major(shape.drop_first()),
        row_major(shape)[0] == product(shape.drop_first()) as usize,
{
    let rest = shape.drop_first();
    lemma_product_skip(shape, 1);
    assert(shape.skip(1) =~= rest);
    assert forall|i: int| 0 <= i < rest.len() implies row_major(shape).drop_first()[i]
        == row_major(rest)[i] by {
        assert(shape.skip(i + 2) =~= rest.skip(i + 1));
    }
    assert(row_major(shape).drop_first() =~= row_major(rest));
}

/// In a contiguous row-major tensor, element number `k` sits at position `k`.
pub proof fn lemma_row_major_offset(shape: Seq<usize>, k: int)
    requires
        0 <= k < product(shape),
        product(shape) <= usize::MAX,
    ensures
        offset_of(shape, row_major(shape), k) == k,
    decreases shape.len(),
{
    if shape.len() > 0 {
        let rest = shape.drop_first();
        let inner = product(rest) as int;
        lemma_row_major_tail(shape);
        lemma_product_skip(shape, 1);
        assert(shape.skip(1) =~= rest);
        lemma_fundamental_div_mod(k, inner);
        lemma_mod_bound(k, inner);
        lemma_row_major_offset(rest, k % inner);
        assert((k / inner) * inner == inner * (k / inner)) by (nonlinear_arith);
    }
}

/// A contiguous row-major tensor's last element is its last position.
pub proof fn lemma_row_major_span(shape: Seq<usize>)
    requires
        0 < product(shape) <= usize::MAX,
    ensures
        span(shape, row_major(shape)) == product(shape) - 1,
    decreases shape.len(),
{
    if shape.len() > 0 {
        let rest = shape.drop_first();
        let inner = product(rest) as int;
        let d = shape[0] as int;
        lemma_row_major_tail(shape);
        lemma_product_skip(shape, 1);
        assert(shape.skip(1) =~= rest);
        lemma_row_major_span(rest);
        assert((d - 1) * inner + inner - 1 == d * inner - 1) by (nonlinear_arith);
    }
}

/// With no empty dimension, the last element does not lie before the first.
pub proof fn lemma_span_nonnegative(shape: Seq<usize>, strides: Seq<usize>)
    requires
        shape.len() == strides.len(),
        product(shape) > 0,
    ensures
        span(shape, strides) >= 0,
    decreases shape.len(),
{
    if shape.len() > 0 {
        let rest = shape.drop_first();
        let d = shape[0] as int;
        let s = strides[0] as int;
        let inner = product(rest) as int;
        assert(inner > 0 && d > 0) by (nonlinear_arith)
            requires
                d * inner > 0,
                d >= 0,
                inner >= 0,
        ;
        assert((d - 1) * s >= 0) by (nonlinear_arith)
            requires
                d >= 1,
                s >= 0,
        ;
        lemma_span_nonnegative(rest, strides.drop_first());
    }
}

/// With no empty dimension, the axes from `a` on span no more than all of them.
pub proof fn lemma_span_skip(shape: Seq<usize>, strides: Seq<usize>, a: int)
    requires
        shape.len() == strides.len(),
        product(shape) > 0,
        0 <= a <= shape.len(),
    ensures
        0 <= span(shape.skip(a), strides.skip(a)) <= span(shape, strides),
    decreases a,
{
    lemma_product_skip(shape, a);
    lemma_span_nonnegative(shape.skip(a), strides.skip(a));
    if a == 0 {
        assert(shape.skip(0) =~= shape);
        assert(strides.skip(0) =~= strides);
    } else {
        lemma_span_skip(shape, strides, a - 1);
        lemma_product_positive(shape);
        assert(shape.skip(a - 1).drop_first() =~= shape.skip(a));
        assert(strides.skip(a - 1).drop_first() =~= strides.skip(a));
        let d = shape[a - 1] as int;
        let s = strides[a - 1] as int;
        assert((d - 1) * s >= 0) by (nonlinear_arith)
            requires
                d >= 1,
                s >= 0,
        ;
    }
}

/// A shape's elements are those of its first `a` axes times those of the rest.
pub proof fn lemma_product_split(shape: Seq<usize>, a: int)
    requires
        0 <= a <= shape.len(),
    ensures
        product(shape) == product(shape.take(a)) * product(shape.skip(a)),
    decreases shape.len(),
{
    if a == 0 {
        assert(shape.take(0).len() == 0);
        assert(product(shape.take(0)) == 1);
        assert(shape.skip(0) =~= shape);
    } else {
        let rest = shape.drop_first();
        lemma_product_split(rest, a - 1);
        assert(shape.take(a).drop_first() =~= rest.take(a - 1));
        assert(shape.skip(a) =~= rest.skip(a - 1));
        let d = shape[0] as int;
        let x = product(rest.take(a - 1)) as int;
        let y = product(rest.skip(a - 1)) as int;
        assert(shape.take(a)[0] == shape[0]);
        assert(product(shape.take(a)) == d * x);
        assert(product(shape) == d * product(rest));
        assert(d * (x * y) == (d * x) * y) by (nonlinear_arith);
    }
}

/// The position on each axis of the element that is number `k` in row-major
/// order.
pub open spec fn index_of(shape: Seq<usize>, k: int) -> Seq<int>
    decreases shape.len(),
{
    if shape.len() == 0 {
        Seq::empty()
    } else {
        let inner = product(shape.drop_first()) as int;
        seq![k / inner] + index_of(shape.drop_first(), k % inner)
    }
}

/// The buffer position, counted in elements from a tensor's first element, of
/// the element at the given position on each axis.
pub open spec fn position_of(index: Seq<int>, strides: Seq<usize>) -> int
    decreases index.len(),
{
    if index.len() == 0 || strides.len() == 0 {
        0
    } else {
        index[0] * strides[0] + position_of(index.drop_first(), strides.drop_first())
    }
}

/// Element number `k` has a position on every axis, inside the axis.
pub proof fn lemma_index_inside(shape: Seq<usize>, k: int)
    requires
        0 <= k < product(shape),
    ensures
        index_of(shape, k).len() == shape.len(),
        forall|a: int| 0 <= a < shape.len() ==> 0 <= #[trigger] index_of(shape, k)[a] < shape[a],
    decreases shape.len(),
{
    if shape.len() > 0 {
        let rest = shape.drop_first();
        let inner = product(rest) as int;
        let d = shape[0] as int;
        assert(inner > 0 && d > 0) by (nonlinear_arith)
            requires
                d * inner > 0,
                d >= 0,
                inner >= 0,
        ;
        lemma_fundamental_div_mod(k, inner);
        lemma_mod_bound(k, inner);
        let q = k / inner;
        assert(0 <= q <= d - 1) by (nonlinear_arith)
            requires
                0 <= k < d * inner,
                inner > 0,
                k == inner * q + k % inner,
                0 <= k % inner < inner,
        ;
        lemma_index_inside(rest, k % inner);
        assert forall|a: int| 0 <= a < shape.len() implies 0 <= #[trigger] index_of(shape, k)[a]
            < shape[a] by {
            if a > 0 {
                assert(index_of(shape, k)[a] == index_of(rest, k % inner)[a - 1]);
                assert(rest[a - 1] == shape[a]);
            }
        }
    }
}

/// The row-major number of an element and its position on each axis name the
/// same place in the buffer.
pub proof fn lemma_offset_is_position(shape: Seq<usize>, strides: Seq<usize>, k: int)
    requires
        shape.len() == strides.len(),
    ensures
        offset_of(shape, strides, k) == position_of(index_of(shape, k), strides),
    decreases shape.len(),
{
    if shape.len() > 0 {
        let rest = shape.drop_first();
        let inner = product(rest) as int;
        lemma_offset_is_position(rest, strides.drop_first(), k % inner);
        assert(index_of(shape, k).drop_first() =~= index_of(rest, k % inner));
        assert(index_of(shape, k)[0] == k / inner);
    }
}

/// The number of elements of a shape, where a `usize` can hold it.
pub fn element_count(shape: &Vec<usize>) -> (count: Option<usize>)
    ensures
        count == (if product(shape@) <= usize::MAX {
            Some(product(shape@) as usize)
        } else {
            None
        }),
{
    let n: usize = shape.len();
    let mut z: usize = 0;
    while z < n
        invariant
            n == shape@.len(),
            z <= n,
            forall|j: int| 0 <= j < z ==> shape@[j] > 0,
        decreases n - z,
    {
        if shape[z] == 0 {
            proof {
                lemma_product_positive(shape@);
            }
            return Some(0);
        }
        z += 1;
    }
    proof {
        lemma_product_positive(shape@);
    }
    let mut acc: usize = 1;
    let mut i: usize = n;
    proof {
        assert(shape@.skip(n as int) =~= Seq::<usize>::empty());
    }
    while i > 0
        invariant
            n == shape@.len(),
            i <= n,
            product(shape@) > 0,
            acc == product(shape@.skip(i as int)),
        decreases i,
    {
        i -= 1;
        proof {
            lemma_product_unfold(shape@, i as int);
            lemma_product_skip(shape@, i as int);
        }
        match shape[i].checked_mul(acc) {
            Some(next) => {
                acc = next;
            },
            None => {
                return None;
            },
        }
    }
    proof {
        assert(shape@.skip(0) =~= shape@);
    }
    Some(acc)
}

/// The strides of a contiguous row-major tensor of the given shape.
pub fn row_major_strides(shape: &Vec<usize>) -> (strides: Vec<usize>)
    requires
        product(shape@) <= usize::MAX,
    ensures
        strides@ == row_major(shape@),
{
    let n: usize = shape.len();
    let mut strides: Vec<usize> = Vec::new();
    let mut f: usize = 0;
    while f < n
        invariant
            f <= n,
            strides@.len() == f,
            forall|j: int| 0 <= j < f ==> strides@[j] == 0,
        decreases n - f,
    {
        strides.push(0);
        f += 1;
    }
    let count = element_count(shape);
    if count == Some(0) {
        assert(strides@ =~= row_major(shape@));
        return strides;
    }
    let mut acc: usize = 1;
    let mut i: usize = n;
    proof {
        assert(shape@.skip(n as int) =~= Seq::<usize>::empty());
    }
    while i > 0
        invariant
            n == shape@.len(),
            strides@.len() == n,
            i <= n,
            0 < product(shape@) <= usize::MAX,
            acc == product(shape@.skip(i as int)),
            forall|j: int| i <= j < n ==> strides@[j] == product(shape@.skip(j + 1)),
        decreases i,
    {
        i -= 1;
        proof {
            lemma_product_unfold(shape@, i as int);
            lemma_product_skip(shape@, i as int);
        }
        strides.set(i, acc);
        acc = shape[i] * acc;
    }
    assert(strides@ =~= row_major(shape@));
    strides
}

} // verus!
