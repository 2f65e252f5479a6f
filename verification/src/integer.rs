use vstd::prelude::*;
use vstd::arithmetic::div_mod::lemma_fundamental_div_mod_converse;
use crate::dtype::{DType, Family};
use crate::shape::product;
use crate::tensor::{cast_byte, TensorView};

verus! {

/// 256 to the power `n`: one more than the largest number that `n` bytes hold.
pub open spec fn radix_power(n: nat) -> nat
    decreases n,
{
    if n == 0 {
        1
    } else {
        256 * radix_power((n - 1) as nat)
    }
}

/// The number that bytes hold in binary, the low byte first.
pub open spec fn low_first_value(b: Seq<u8>) -> nat
    decreases b.len(),
{
    if b.len() == 0 {
        0
    } else {
        b[0] as nat + 256 * low_first_value(b.drop_first())
    }
}

/// An element's bytes with the low byte first.
pub open spec fn low_first(e: Seq<u8>, little: bool) -> Seq<u8> {
    if little {
        e
    } else {
        e.reverse()
    }
}

/// The integer that an element's bytes denote in the given byte order: the
/// number they hold in binary, read in two's complement where the type is
/// signed.
pub open spec fn integer_value(e: Seq<u8>, signed: bool, little: bool) -> int {
    let b = low_first(e, little);
    if signed && b.len() > 0 && b.last() >= 128 {
        low_first_value(b) - radix_power(b.len())
    } else {
        low_first_value(b) as int
    }
}

/// An element cast to `to` bytes.
pub open spec fn cast_element(e: Seq<u8>, signed: bool, to: nat, little: bool) -> Seq<u8> {
    Seq::new(to, |j: int| cast_byte(e, signed, to as int, little, j))
}

/// Bytes hold less than 256 to the power of their number.
pub proof fn lemma_value_bound(b: Seq<u8>)
    ensures
        low_first_value(b) < radix_power(b.len()),
    decreases b.len(),
{
    if b.len() > 0 {
        lemma_value_bound(b.drop_first());
    }
}

/// 256 to a sum is the product of the powers.
pub proof fn lemma_power_add(a: nat, b: nat)
    ensures
        radix_power(a + b) == radix_power(a) * radix_power(b),
    decreases a,
{
    if a == 0 {
        assert(radix_power(0) == 1);
        assert(1 * radix_power(b) == radix_power(b)) by (nonlinear_arith);
    } else {
        lemma_power_add((a - 1) as nat, b);
        assert(((a - 1) as nat) + b == (a + b - 1) as nat);
        let x = radix_power((a - 1) as nat) as int;
        let y = radix_power(b) as int;
        assert(radix_power(a) == 256 * x);
        assert(radix_power(a + b) == 256 * radix_power((a + b - 1) as nat));
        assert(256 * (x * y) == (256 * x) * y) by (nonlinear_arith);
    }
}

/// The number that bytes hold is the number of the first `k`, plus the
/// number of the rest moved up by `k` bytes.
pub proof fn lemma_value_split(b: Seq<u8>, k: int)
    requires
        0 <= k <= b.len(),
    ensures
        low_first_value(b) == low_first_value(b.take(k)) + radix_power(k as nat) * low_first_value(
            b.skip(k),
        ),
    decreases k,
{
    if k == 0 {
        assert(b.take(0).len() == 0);
        assert(low_first_value(b.take(0)) == 0);
        assert(radix_power(0) == 1);
        assert(b.skip(0) =~= b);
        assert(1 * low_first_value(b) == low_first_value(b)) by (nonlinear_arith);
    } else {
        let rest = b.drop_first();
        lemma_value_split(rest, k - 1);
        assert(b.take(k).drop_first() =~= rest.take(k - 1));
        assert(b.take(k)[0] == b[0]);
        assert(b.skip(k) =~= rest.skip(k - 1));
        let x = low_first_value(rest.take(k - 1)) as int;
        let p = radix_power((k - 1) as nat) as int;
        let y = low_first_value(b.skip(k)) as int;
        assert(low_first_value(b) == b[0] + 256 * low_first_value(rest));
        assert(low_first_value(b.take(k)) == b[0] + 256 * x);
        assert(radix_power(k as nat) == 256 * p);
        assert(256 * (x + p * y) == 256 * x + (256 * p) * y) by (nonlinear_arith);
    }
}

/// Bytes that are all zero hold zero; bytes that are all 255 hold the largest
/// number of their length.
pub proof fn lemma_fill_value(n: nat, fill: u8)
    requires
        fill == 0 || fill == 255,
    ensures
        low_first_value(Seq::new(n, |i: int| fill)) == (if fill == 255 {
            radix_power(n) - 1
        } else {
            0
        }),
    decreases n,
{
    if n > 0 {
        lemma_fill_value((n - 1) as nat, fill);
        assert(Seq::new(n, |i: int| fill).drop_first() =~= Seq::new((n - 1) as nat, |i: int| fill));
    }
}

/// What a cast does to the integer that an element denotes: the bytes that
/// come out hold that integer reduced modulo 256 to the power of their
/// number, and where the element is not shortened they denote the same
/// integer, a signed one with its sign.
pub proof fn lemma_cast_keeps_value(e: Seq<u8>, signed: bool, to: nat, little: bool)
    requires
        e.len() > 0,
        to > 0,
    ensures
        integer_value(cast_element(e, signed, to, little), false, little) == integer_value(
            e,
            signed,
            little,
        ) % (radix_power(to) as int),
        to >= e.len() ==> integer_value(cast_element(e, signed, to, little), signed, little)
            == integer_value(e, signed, little),
{
    let w = e.len();
    let b = low_first(e, little);
    let c = low_first(cast_element(e, signed, to, little), little);
    let fill: u8 = if signed && b.last() >= 128 {
        255u8
    } else {
        0u8
    };
    assert(c =~= Seq::new(
        to,
        |j: int|
            if j < w {
                b[j]
            } else {
                fill
            },
    ));
    let value = low_first_value(b) as int;
    let out = low_first_value(c) as int;
    let whole = integer_value(e, signed, little);
    let high = radix_power(to) as int;
    lemma_value_bound(c);
    lemma_value_bound(b);
    if to <= w {
        assert(c =~= b.take(to as int));
        lemma_value_split(b, to as int);
        lemma_power_add(to, (w - to) as nat);
        let rest = low_first_value(b.skip(to as int)) as int;
        let over = radix_power((w - to) as nat) as int;
        if signed && b.last() >= 128 {
            assert(whole == (rest - over) * high + out) by (nonlinear_arith)
                requires
                    whole == value - high * over,
                    value == out + high * rest,
            ;
            lemma_fundamental_div_mod_converse(whole, high, rest - over, out);
        } else {
            assert(whole == rest * high + out) by (nonlinear_arith)
                requires
                    whole == value,
                    value == out + high * rest,
            ;
            lemma_fundamental_div_mod_converse(whole, high, rest, out);
        }
        if to == w {
            assert(c =~= b);
        }
    } else {
        let more = (to - w) as nat;
        let tail = Seq::new(more, |i: int| fill);
        assert(c.take(w as int) =~= b);
        assert(c.skip(w as int) =~= tail);
        lemma_value_split(c, w as int);
        lemma_fill_value(more, fill);
        lemma_power_add(w, more);
        let low = radix_power(w) as int;
        let over = radix_power(more) as int;
        assert(c.last() == fill);
        if fill == 255 {
            assert(out == value + high - low) by (nonlinear_arith)
                requires
                    out == value + low * (over - 1),
                    high == low * over,
            ;
            assert(whole == (-1) * high + out);
            lemma_fundamental_div_mod_converse(whole, high, -1, out);
        } else {
            assert(out == value) by (nonlinear_arith)
                requires
                    out == value + low * 0,
            ;
            assert(whole == 0 * high + out);
            lemma_fundamental_div_mod_converse(whole, high, 0, out);
        }
    }
}

/// An export holds, for each element in row-major order, that element cast
/// to the target's width.
pub proof fn lemma_exported_element(v: TensorView, target: DType, little: bool, k: int)
    requires
        0 <= k < product(v.shape),
    ensures
        v.exported(target, little).subrange(k * target.width(), k * target.width() + target.width())
            == cast_element(
            v.element(k),
            v.dtype.family_spec() == Family::Signed,
            target.width(),
            little,
        ),
{
    let tw = target.width() as int;
    let count = product(v.shape) as int;
    let from = k * tw;
    assert(0 <= from && from + tw <= count * tw) by (nonlinear_arith)
        requires
            0 <= k < count,
            tw > 0,
            from == k * tw,
    ;
    let piece = v.exported(target, little).subrange(from, from + tw);
    let cast = cast_element(
        v.element(k),
        v.dtype.family_spec() == Family::Signed,
        target.width(),
        little,
    );
    assert forall|j: int| 0 <= j < tw implies piece[j] == cast[j] by {
        assert(from + j == tw * k + j) by (nonlinear_arith)
            requires
                from == k * tw,
        ;
        lemma_fundamental_div_mod_converse(from + j, tw, k, j);
    }
    assert(piece =~= cast);
}

} // verus!
