use std::sync::Arc;
use vstd::prelude::*;
use vstd::arithmetic::div_mod::{
    lemma_fundamental_div_mod,
    lemma_fundamental_div_mod_converse,
    lemma_mod_bound,
};
use crate::dtype::{cast_allowed, castable, dtype_in_family, dtype_of_label, DType, Family};
use crate::error::BridgeError;
use crate::shape::{
    element_count,
    lemma_offset_bound,
    lemma_product_skip,
    lemma_product_unfold,
    lemma_row_major_offset,
    lemma_row_major_span,
    lemma_span_nonnegative,
    lemma_whole_elements,
    offset_of,
    product,
    row_major,
    row_major_strides,
    span,
};

verus! {

/// A typed, shaped, strided window on a shared byte buffer. Several tensors
/// may share one buffer; none of them ever writes to it.
pub struct Tensor {
    dtype: DType,
    shape: Vec<usize>,
    strides: Vec<usize>,
    offset: usize,
    buffer: Arc<Vec<u8>>,
}

/// What a tensor is mathematically: an element type, the sizes of its
/// dimensions, the step of each dimension and the position of the first
/// element (both counted in elements), and the bytes of the buffer.
pub struct TensorView {
    pub dtype: DType,
    pub shape: Seq<usize>,
    pub strides: Seq<usize>,
    pub offset: int,
    pub buffer: Seq<u8>,
}

/// Byte `j` of the value held in `e` after a cast to `to` bytes. The value is
/// an integer in the given byte order; a cast keeps the low bytes and fills
/// the high ones with the sign of a signed value, with zero otherwise. What
/// this does to the integer that the bytes denote is proved in `integer`.
pub open spec fn cast_byte(e: Seq<u8>, signed: bool, to: int, little: bool, j: int) -> u8 {
    let w = e.len() as int;
    let rank = if little {
        j
    } else {
        to - 1 - j
    };
    let top = if little {
        e[w - 1]
    } else {
        e[0]
    };
    if rank < w {
        if little {
            e[rank]
        } else {
            e[w - 1 - rank]
        }
    } else if signed && top >= 128 {
        255u8
    } else {
        0u8
    }
}

impl TensorView {
    /// The buffer holds whole elements, every element of the tensor lies
    /// inside it, and the contents fit in memory.
    pub open spec fn valid(self) -> bool {
        &&& self.shape.len() == self.strides.len()
        &&& self.offset >= 0
        &&& product(self.shape) * self.dtype.width() <= usize::MAX
        &&& self.buffer.len() <= usize::MAX
        &&& self.buffer.len() % self.dtype.width() == 0
        &&& product(self.shape) > 0 ==> (self.offset + span(self.shape, self.strides) + 1)
            * self.dtype.width() <= self.buffer.len()
    }

    /// The tensor is its whole buffer, in row-major order.
    pub open spec fn contiguous(self) -> bool {
        &&& self.strides == row_major(self.shape)
        &&& self.offset == 0
        &&& self.buffer.len() == product(self.shape) * self.dtype.width()
    }

    /// The bytes of element number `k` in row-major order.
    pub open spec fn element(self, k: int) -> Seq<u8> {
        let w = self.dtype.width() as int;
        let at = (self.offset + offset_of(self.shape, self.strides, k)) * w;
        self.buffer.subrange(at, at + w)
    }

    /// The tensor's elements one after the other, in row-major order.
    pub open spec fn contents(self) -> Seq<u8> {
        let w = self.dtype.width() as int;
        Seq::new((product(self.shape) * self.dtype.width()) as nat, |i: int| self.element(i / w)[i % w])
    }

    /// Byte `i` of the tensor's elements, each cast to `tw` bytes.
    pub open spec fn export_byte(self, tw: int, little: bool, i: int) -> u8 {
        cast_byte(
            self.element(i / tw),
            self.dtype.family_spec() == Family::Signed,
            tw,
            little,
            i % tw,
        )
    }

    /// The tensor's elements in row-major order, each cast to the target
    /// type, on a machine of the given byte order.
    pub open spec fn exported(self, target: DType, little: bool) -> Seq<u8> {
        Seq::new(
            (product(self.shape) * target.width()) as nat,
            |i: int| self.export_byte(target.width() as int, little, i),
        )
    }

    /// What two tensors must share to be the same to every reader.
    pub open spec fn same_as(self, other: TensorView) -> bool {
        &&& self.dtype == other.dtype
        &&& self.shape == other.shape
        &&& self.contents() == other.contents()
    }
}

impl View for Tensor {
    type V = TensorView;

    closed spec fn view(&self) -> TensorView {
        TensorView {
            dtype: self.dtype,
            shape: self.shape@,
            strides: self.strides@,
            offset: self.offset as int,
            buffer: self.buffer@,
        }
    }
}

/// An export at the tensor's own width hands out its contents, whatever the
/// byte order.
pub proof fn lemma_export_same_width(v: TensorView, little: bool)
    requires
        v.valid(),
    ensures
        v.exported(v.dtype, little) == v.contents(),
{
    let w = v.dtype.width() as int;
    assert forall|i: int| 0 <= i < product(v.shape) * v.dtype.width() implies v.export_byte(
        w,
        little,
        i,
    ) == v.element(i / w)[i % w] by {
        lemma_mod_bound(i, w);
        lemma_fundamental_div_mod(i, w);
        let k = i / w;
        assert(0 <= k < product(v.shape)) by (nonlinear_arith)
            requires
                0 <= i < product(v.shape) * w,
                w > 0,
                i == w * k + i % w,
                0 <= i % w < w,
        ;
        lemma_element_inside(v, k);
    }
    assert(v.exported(v.dtype, little) =~= v.contents());
}

/// Each element of a valid tensor lies inside its buffer.
pub proof fn lemma_element_inside(v: TensorView, k: int)
    requires
        v.valid(),
        0 <= k < product(v.shape),
    ensures
        0 <= v.offset + offset_of(v.shape, v.strides, k) <= v.offset + span(v.shape, v.strides),
        (v.offset + offset_of(v.shape, v.strides, k) + 1) * v.dtype.width() <= v.buffer.len(),
        v.element(k).len() == v.dtype.width(),
{
    lemma_offset_bound(v.shape, v.strides, k);
    let p = v.offset + offset_of(v.shape, v.strides, k);
    let q = v.offset + span(v.shape, v.strides);
    let w = v.dtype.width() as int;
    assert((p + 1) * w <= (q + 1) * w) by (nonlinear_arith)
        requires
            0 <= p <= q,
            w > 0,
    ;
    assert(p * w + w == (p + 1) * w) by (nonlinear_arith);
    assert(p * w >= 0) by (nonlinear_arith)
        requires
            p >= 0,
            w > 0,
    ;
}

/// A contiguous tensor's contents are its buffer.
pub proof fn lemma_contiguous_contents(v: TensorView)
    requires
        v.valid(),
        v.contiguous(),
    ensures
        v.contents() == v.buffer,
{
    let w = v.dtype.width() as int;
    assert forall|i: int| 0 <= i < v.buffer.len() implies v.contents()[i] == v.buffer[i] by {
        lemma_mod_bound(i, w);
        lemma_fundamental_div_mod(i, w);
        let k = i / w;
        assert(0 <= k < product(v.shape)) by (nonlinear_arith)
            requires
                0 <= i < product(v.shape) * w,
                w > 0,
                i == w * k + i % w,
                0 <= i % w < w,
        ;
        assert(product(v.shape) <= usize::MAX) by (nonlinear_arith)
            requires
                product(v.shape) * w <= usize::MAX,
                w > 0,
        ;
        lemma_row_major_offset(v.shape, k);
        lemma_element_inside(v, k);
        assert(k * w == w * k) by (nonlinear_arith);
    }
    assert(v.contents() =~= v.buffer);
}

impl Tensor {
    /// What holds of every tensor: its elements lie inside its buffer.
    #[verifier::type_invariant]
    pub open spec fn well_formed(&self) -> bool {
        self@.valid()
    }

    /// The element type.
    pub fn dtype(&self) -> (dtype: DType)
        ensures
            dtype == self@.dtype,
    {
        self.dtype
    }

    /// The sizes of the dimensions.
    pub fn shape(&self) -> (shape: Vec<usize>)
        ensures
            shape@ == self@.shape,
    {
        self.shape.clone()
    }

    /// The step of each dimension, counted in elements.
    pub fn strides(&self) -> (strides: Vec<usize>)
        ensures
            strides@ == self@.strides,
    {
        self.strides.clone()
    }

    /// Another handle on the same tensor, sharing its buffer.
    pub fn duplicate(&self) -> (t: Tensor)
        ensures
            t@ == self@,
            t@.valid(),
    {
        proof {
            use_type_invariant(self);
        }
        Tensor {
            dtype: self.dtype,
            shape: self.shape.clone(),
            strides: self.strides.clone(),
            offset: self.offset,
            buffer: share(&self.buffer),
        }
    }

    /// A tensor of the given parts.
    pub(crate) fn from_parts(
        dtype: DType,
        shape: Vec<usize>,
        strides: Vec<usize>,
        offset: usize,
        buffer: Arc<Vec<u8>>,
    ) -> (t: Tensor)
        requires
            (TensorView {
                dtype,
                shape: shape@,
                strides: strides@,
                offset: offset as int,
                buffer: buffer@,
            }).valid(),
        ensures
            t@ == (TensorView {
                dtype,
                shape: shape@,
                strides: strides@,
                offset: offset as int,
                buffer: buffer@,
            }),
    {
        Tensor { dtype, shape, strides, offset, buffer }
    }

    pub(crate) fn sizes(&self) -> (sizes: &Vec<usize>)
        ensures
            sizes@ == self@.shape,
    {
        &self.shape
    }

    pub(crate) fn steps(&self) -> (steps: &Vec<usize>)
        ensures
            steps@ == self@.strides,
    {
        &self.strides
    }

    pub(crate) fn first(&self) -> (first: usize)
        ensures
            first == self@.offset,
    {
        self.offset
    }

    /// Another handle on the tensor's buffer.
    pub(crate) fn lend(&self) -> (buffer: Arc<Vec<u8>>)
        ensures
            buffer@ == self@.buffer,
    {
        share(&self.buffer)
    }
}

/// The tensor that owns `bytes` as its row-major elements.
pub open spec fn imported(bytes: Seq<u8>, shape: Seq<usize>, dtype: DType) -> TensorView {
    TensorView { dtype, shape, strides: row_major(shape), offset: 0, buffer: bytes }
}

/// Builds a tensor that owns `bytes`, read as row-major elements of the type
/// named by `label` and `bits`, in the machine's byte order. The label is
/// looked at first: an unknown element type is reported whatever the length.
pub fn from_binary(bytes: Vec<u8>, shape: Vec<usize>, label: &str, bits: usize) -> (r: Result<
    Tensor,
    BridgeError,
>)
    ensures
        match dtype_of_label(label@, bits as int) {
            None => r matches Err(e) && e == BridgeError::UnsupportedDType,
            Some(dtype) => if product(shape@) * dtype.width() == bytes@.len() {
                r matches Ok(t) && t@ == imported(bytes@, shape@, dtype) && t@.valid()
                    && t@.contiguous() && t@.contents() == bytes@
            } else {
                r matches Err(e) && e == BridgeError::SizeMismatch
            },
        },
{
    let dtype = match DType::from_label(label, bits) {
        Some(dtype) => dtype,
        None => {
            return Err(BridgeError::UnsupportedDType);
        },
    };
    let w: usize = dtype.byte_width();
    let n: usize = bytes.len();
    let count: usize = match element_count(&shape) {
        Some(count) => count,
        None => {
            assert(product(shape@) * dtype.width() > n) by (nonlinear_arith)
                requires
                    product(shape@) > n,
                    dtype.width() >= 1,
            ;
            return Err(BridgeError::SizeMismatch);
        },
    };
    proof {
        lemma_fundamental_div_mod(n as int, w as int);
        lemma_mod_bound(n as int, w as int);
    }
    if n % w != 0 || n / w != count {
        assert(count * w != n) by (nonlinear_arith)
            requires
                n == w * (n / w) + n % w,
                0 <= n % w < w,
                n % w != 0 || n / w != count,
        ;
        return Err(BridgeError::SizeMismatch);
    }
    assert(count * w == n) by (nonlinear_arith)
        requires
            n == w * (n / w) + n % w,
            n % w == 0,
            n / w == count,
    ;
    let strides = row_major_strides(&shape);
    proof {
        if product(shape@) > 0 {
            lemma_row_major_span(shape@);
        }
    }
    let t = Tensor { dtype, shape, strides, offset: 0, buffer: Arc::new(bytes) };
    proof {
        lemma_contiguous_contents(t@);
    }
    Ok(t)
}

/// What the machine's byte order is, told from the bytes of the number one.
/// Stands on `u16::to_ne_bytes`, of which nothing is claimed: the answer is
/// the machine's, and every caller is proved for either.
#[verifier::external_body]
fn native_bytes(x: u16) -> (bytes: [u8; 2]) {
    x.to_ne_bytes()
}

/// Another handle on the same buffer. Stands on `Arc::clone`, which hands out
/// a pointer to the same allocation: the bytes behind it are the same.
#[verifier::external_body]
fn share(buffer: &Arc<Vec<u8>>) -> (shared: Arc<Vec<u8>>)
    ensures
        shared == buffer,
{
    Arc::clone(buffer)
}

/// Whether this machine stores the low byte of an integer first.
pub fn native_is_little() -> (little: bool) {
    low_byte_first(native_bytes(1))
}

/// Whether the two bytes of the number one, in the order in which a machine
/// stores them, begin with the low byte. The machine's answer is not known
/// before it is asked, so `native_is_little` promises nothing of it; what is
/// made of the bytes is stated here, and every export and join is stated for
/// either answer.
pub fn low_byte_first(one: [u8; 2]) -> (little: bool)
    ensures
        little == (one@[0] == 1u8),
{
    one[0] == 1
}

impl Tensor {
    /// The buffer position of element number `k`, counted in elements.
    fn position(&self, steps: &Vec<usize>, k: usize) -> (at: usize)
        requires
            k < product(self@.shape),
            steps@ == row_major(self@.shape),
        ensures
            at == self@.offset + offset_of(self@.shape, self@.strides, k as int),
    {
        proof {
            use_type_invariant(self);
        }
        let rank: usize = self.shape.len();
        let mut rest: usize = k;
        let mut at: usize = self.offset;
        let mut axis: usize = 0;
        proof {
            assert(self@.shape.skip(0) =~= self@.shape);
            assert(self@.strides.skip(0) =~= self@.strides);
            lemma_span_nonnegative(self@.shape, self@.strides);
            assert(product(self@.shape) <= usize::MAX) by (nonlinear_arith)
                requires
                    product(self@.shape) * self@.dtype.width() <= usize::MAX,
                    self@.dtype.width() >= 1,
            ;
            assert(self@.offset + span(self@.shape, self@.strides) <= usize::MAX)
                by (nonlinear_arith)
                requires
                    (self@.offset + span(self@.shape, self@.strides) + 1) * self@.dtype.width()
                        <= usize::MAX,
                    self@.offset + span(self@.shape, self@.strides) >= 0,
                    self@.dtype.width() >= 1,
            ;
        }
        while axis < rank
            invariant
                self@.valid(),
                rank == self@.shape.len(),
                axis <= rank,
                steps@ == row_major(self@.shape),
                0 < product(self@.shape) <= usize::MAX,
                rest < product(self@.shape.skip(axis as int)),
                self@.offset <= at,
                self@.offset + span(self@.shape, self@.strides) <= usize::MAX,
                at + offset_of(self@.shape.skip(axis as int), self@.strides.skip(axis as int), rest as int)
                    == self@.offset + offset_of(self@.shape, self@.strides, k as int),
                at + span(self@.shape.skip(axis as int), self@.strides.skip(axis as int))
                    <= self@.offset + span(self@.shape, self@.strides),
            decreases rank - axis,
        {
            let inner: usize = steps[axis];
            let step: usize = self.strides[axis];
            proof {
                let shape = self@.shape.skip(axis as int);
                let strides = self@.strides.skip(axis as int);
                assert(shape.drop_first() =~= self@.shape.skip(axis + 1));
                assert(strides.drop_first() =~= self@.strides.skip(axis + 1));
                lemma_product_skip(self@.shape, axis + 1);
                lemma_product_unfold(self@.shape, axis as int);
                lemma_fundamental_div_mod(rest as int, inner as int);
                lemma_mod_bound(rest as int, inner as int);
                let d = self@.shape[axis as int] as int;
                let q = (rest as int) / (inner as int);
                assert(0 <= q <= d - 1) by (nonlinear_arith)
                    requires
                        0 <= rest < d * inner,
                        inner > 0,
                        rest == inner * q + rest % inner,
                        0 <= (rest % inner) < inner,
                ;
                assert(0 <= q * step <= (d - 1) * step) by (nonlinear_arith)
                    requires
                        0 <= q <= d - 1,
                        step >= 0,
                ;
                lemma_product_skip(self@.shape, axis as int);
                lemma_span_nonnegative(shape.drop_first(), strides.drop_first());
            }
            at = at + (rest / inner) * step;
            rest = rest % inner;
            axis += 1;
        }
        at
    }

    /// The elements in row-major order, each cast to `target`.
    pub(crate) fn gather(&self, target: DType, little: bool) -> (out: Vec<u8>)
        requires
            product(self@.shape) * target.width() <= usize::MAX,
        ensures
            out@ == self@.exported(target, little),
    {
        proof {
            use_type_invariant(self);
        }
        let w: usize = self.dtype.byte_width();
        let tw: usize = target.byte_width();
        let signed: bool = self.dtype.family() == Family::Signed;
        proof {
            assert(product(self@.shape) <= usize::MAX) by (nonlinear_arith)
                requires
                    product(self@.shape) * self@.dtype.width() <= usize::MAX,
                    self@.dtype.width() >= 1,
            ;
        }
        let count: usize = match element_count(&self.shape) {
            Some(count) => count,
            None => 0,
        };
        let steps = row_major_strides(&self.shape);
        let mut out: Vec<u8> = Vec::new();
        let mut k: usize = 0;
        while k < count
            invariant
                self@.valid(),
                w == self@.dtype.width(),
                tw == target.width(),
                1 <= tw <= 8,
                signed == (self@.dtype.family_spec() == Family::Signed),
                count == product(self@.shape),
                count * tw <= usize::MAX,
                steps@ == row_major(self@.shape),
                k <= count,
                out@.len() == k * tw,
                forall|i: int| 0 <= i < out@.len() ==> out@[i] == self@.export_byte(tw as int, little, i),
            decreases count - k,
        {
            let at: usize = self.position(&steps, k);
            proof {
                lemma_element_inside(self@, k as int);
                assert(at * w + w == (at + 1) * w) by (nonlinear_arith);
                assert(at * w >= 0) by (nonlinear_arith)
                    requires
                        at >= 0,
                        w > 0,
                ;
                assert((k + 1) * tw <= count * tw) by (nonlinear_arith)
                    requires
                        k + 1 <= count,
                        tw > 0,
                ;
                assert((k + 1) * tw == k * tw + tw) by (nonlinear_arith);
            }
            let base: usize = at * w;
            let top: u8 = if little {
                self.buffer[base + w - 1]
            } else {
                self.buffer[base]
            };
            let fill: u8 = if signed && top >= 128 {
                255
            } else {
                0
            };
            let ghost element = self@.element(k as int);
            let mut j: usize = 0;
            while j < tw
                invariant
                    self@.valid(),
                    w == self@.dtype.width(),
                    1 <= tw <= 8,
                    1 <= w <= 8,
                    j <= tw,
                    k * tw + tw <= usize::MAX,
                    base + w <= self.buffer@.len(),
                    element == self@.element(k as int),
                    element == self.buffer@.subrange(base as int, base + w),
                    fill == (if signed && top >= 128 {
                        255u8
                    } else {
                        0u8
                    }),
                    top == (if little {
                        element[w - 1]
                    } else {
                        element[0]
                    }),
                    signed == (self@.dtype.family_spec() == Family::Signed),
                    out@.len() == k * tw + j,
                    forall|i: int| 0 <= i < out@.len() ==> out@[i] == self@.export_byte(tw as int, little, i),
                decreases tw - j,
            {
                let rank: usize = if little {
                    j
                } else {
                    tw - 1 - j
                };
                let byte: u8 = if rank < w {
                    if little {
                        self.buffer[base + rank]
                    } else {
                        self.buffer[base + (w - 1 - rank)]
                    }
                } else {
                    fill
                };
                proof {
                    let i = k * tw + j;
                    assert(i == tw * k + j) by (nonlinear_arith)
                        requires
                            i == k * tw + j,
                    ;
                    lemma_fundamental_div_mod_converse(i as int, tw as int, k as int, j as int);
                    assert(byte == self@.export_byte(tw as int, little, i as int));
                }
                out.push(byte);
                j += 1;
            }
            k += 1;
        }
        assert(out@ =~= self@.exported(target, little));
        out
    }
}

/// The export of `v` at `bits` bits under `limit`, on a machine of the given
/// byte order. The target is the member of the tensor's family that is
/// `bits` bits wide. The limit is tested as soon as the target is known, so
/// that no export longer than the limit is ever begun; only then is a cast
/// that this crate leaves to its caller refused.
pub open spec fn export_result(v: TensorView, bits: int, limit: int, little: bool) -> Result<
    Seq<u8>,
    BridgeError,
> {
    match dtype_in_family(v.dtype.family_spec(), bits) {
        None => Err(BridgeError::UnsupportedDType),
        Some(target) => if product(v.shape) * target.width() > limit {
            Err(BridgeError::SizeLimitExceeded)
        } else if cast_allowed(v.dtype, target) {
            Ok(v.exported(target, little))
        } else {
            Err(BridgeError::UnsupportedDType)
        },
    }
}

/// Copies the tensor's elements out in row-major order, each cast to the
/// member of its family that is `bits` bits wide, for a machine of the given
/// byte order. Integers are cast by truncation and sign extension; another
/// family is exported at its own width only. Nothing is returned where the
/// copy would be longer than `limit` bytes, and that is tested before a cast
/// is refused.
pub fn to_binary_in_order(tensor: &Tensor, bits: usize, limit: usize, little: bool) -> (r: Result<
    Vec<u8>,
    BridgeError,
>)
    ensures
        match export_result(tensor@, bits as int, limit as int, little) {
            Ok(bytes) => r matches Ok(out) && out@ == bytes,
            Err(error) => r matches Err(e) && e == error,
        },
{
    proof {
        use_type_invariant(tensor);
    }
    let family = tensor.dtype.family();
    let target = match family.with_bits(bits) {
        Some(target) => target,
        None => {
            return Err(BridgeError::UnsupportedDType);
        },
    };
    let tw: usize = target.byte_width();
    proof {
        assert(product(tensor@.shape) <= usize::MAX) by (nonlinear_arith)
            requires
                product(tensor@.shape) * tensor@.dtype.width() <= usize::MAX,
                tensor@.dtype.width() >= 1,
        ;
    }
    let count: usize = match element_count(&tensor.shape) {
        Some(count) => count,
        None => 0,
    };
    match count.checked_mul(tw) {
        Some(length) => {
            if length > limit {
                return Err(BridgeError::SizeLimitExceeded);
            }
        },
        None => {
            return Err(BridgeError::SizeLimitExceeded);
        },
    }
    if !castable(tensor.dtype, target) {
        return Err(BridgeError::UnsupportedDType);
    }
    Ok(tensor.gather(target, little))
}

/// Copies the tensor's elements out in row-major order, at `bits` bits each,
/// in this machine's byte order. At the tensor's own width the copy is its
/// contents; see `to_binary_in_order` for the cast.
pub fn to_binary(tensor: &Tensor, bits: usize, limit: usize) -> (r: Result<Vec<u8>, BridgeError>)
    ensures
        match export_result(tensor@, bits as int, limit as int, true) {
            Err(error) => r matches Err(e) && e == error,
            Ok(low_first) => r matches Ok(out) && (out@ == low_first || Ok::<
                Seq<u8>,
                BridgeError,
            >(out@) == export_result(tensor@, bits as int, limit as int, false)) && (bits == 8
                * tensor@.dtype.width() ==> out@ == tensor@.contents()),
        },
{
    let little = native_is_little();
    proof {
        use_type_invariant(tensor);
        lemma_export_same_width(tensor@, little);
    }
    to_binary_in_order(tensor, bits, limit, little)
}

/// Whether two lists of sizes are the same.
fn same_sizes(a: &Vec<usize>, b: &Vec<usize>) -> (same: bool)
    ensures
        same == (a@ == b@),
{
    let n: usize = a.len();
    if n != b.len() {
        return false;
    }
    let mut i: usize = 0;
    while i < n
        invariant
            n == a@.len(),
            n == b@.len(),
            i <= n,
            forall|j: int| 0 <= j < i ==> a@[j] == b@[j],
        decreases n - i,
    {
        if a[i] != b[i] {
            return false;
        }
        i += 1;
    }
    assert(a@ =~= b@);
    true
}

impl Tensor {
    /// Whether the tensor is its whole buffer in row-major order.
    pub fn is_contiguous(&self) -> (whole: bool)
        ensures
            whole == self@.contiguous(),
    {
        proof {
            use_type_invariant(self);
            assert(product(self@.shape) <= usize::MAX) by (nonlinear_arith)
                requires
                    product(self@.shape) * self@.dtype.width() <= usize::MAX,
                    self@.dtype.width() >= 1,
            ;
        }
        let count: usize = match element_count(&self.shape) {
            Some(count) => count,
            None => 0,
        };
        let steps = row_major_strides(&self.shape);
        self.offset == 0 && self.buffer.len() == count * self.dtype.byte_width() && same_sizes(
            &self.strides,
            &steps,
        )
    }
}

/// The same elements in the same row-major order under another shape. The
/// new shape must hold as many elements as the old one. A contiguous tensor
/// lends its buffer; any other is first copied into row-major order.
pub fn reshape(tensor: &Tensor, shape: Vec<usize>) -> (r: Result<Tensor, BridgeError>)
    ensures
        if product(shape@) == product(tensor@.shape) {
            r matches Ok(t) && t@.valid() && t@.contiguous() && t@.dtype == tensor@.dtype
                && t@.shape == shape@ && t@.contents() == tensor@.contents() && (
            tensor@.contiguous() ==> t@.buffer == tensor@.buffer) && (shape@ == tensor@.shape
                ==> t@.same_as(tensor@))
        } else {
            r matches Err(e) && e == BridgeError::ShapeMismatch
        },
{
    proof {
        use_type_invariant(tensor);
        assert(product(tensor@.shape) <= usize::MAX) by (nonlinear_arith)
            requires
                product(tensor@.shape) * tensor@.dtype.width() <= usize::MAX,
                tensor@.dtype.width() >= 1,
        ;
    }
    let old_count = element_count(&tensor.shape);
    let new_count = element_count(&shape);
    if new_count.is_none() || new_count != old_count {
        return Err(BridgeError::ShapeMismatch);
    }
    let strides = row_major_strides(&shape);
    let buffer = if tensor.is_contiguous() {
        proof {
            lemma_contiguous_contents(tensor@);
        }
        share(&tensor.buffer)
    } else {
        proof {
            lemma_export_same_width(tensor@, true);
        }
        Arc::new(tensor.gather(tensor.dtype, true))
    };
    proof {
        if product(shape@) > 0 {
            lemma_row_major_span(shape@);
        }
        lemma_whole_elements(product(shape@) as int, tensor@.dtype.width() as int);
    }
    let t = Tensor { dtype: tensor.dtype, shape, strides, offset: 0, buffer };
    proof {
        lemma_contiguous_contents(t@);
    }
    Ok(t)
}

/// Bytes that are imported and then exported at the same element type come
/// back as they were, whatever the byte order, under any limit that they fit.
pub proof fn lemma_round_trip(
    bytes: Seq<u8>,
    shape: Seq<usize>,
    dtype: DType,
    limit: int,
    little: bool,
)
    requires
        product(shape) * dtype.width() == bytes.len(),
        bytes.len() <= limit,
        bytes.len() <= usize::MAX,
    ensures
        imported(bytes, shape, dtype).valid(),
        export_result(imported(bytes, shape, dtype), 8 * (dtype.width() as int), limit, little) == Ok::<
            Seq<u8>,
            BridgeError,
        >(bytes),
{
    let v = imported(bytes, shape, dtype);
    lemma_whole_elements(product(shape) as int, dtype.width() as int);
    if product(shape) > 0 {
        assert(product(shape) <= usize::MAX) by (nonlinear_arith)
            requires
                product(shape) * dtype.width() <= usize::MAX,
                dtype.width() >= 1,
        ;
        lemma_row_major_span(shape);
    }
    lemma_contiguous_contents(v);
    lemma_export_same_width(v, little);
    assert(dtype_in_family(dtype.family_spec(), 8 * (dtype.width() as int)) == Some(dtype));
}

/// An export under a limit below its length hands out no bytes at all, and
/// one that hands out bytes hands out no more than the limit.
pub proof fn lemma_limit_is_kept(v: TensorView, bits: int, limit: int, little: bool)
    requires
        v.valid(),
    ensures
        export_result(v, bits, limit, little) matches Ok(bytes) ==> bytes.len() <= limit,
        dtype_in_family(v.dtype.family_spec(), bits) matches Some(target) ==> (product(v.shape)
            * target.width()
            > limit ==> export_result(v, bits, limit, little) == Err::<Seq<u8>, BridgeError>(
            BridgeError::SizeLimitExceeded,
        )),
{
}

} // verus!
