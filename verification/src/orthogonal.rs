//! The cross product is orthogonal to its factors, up to rounding.

use vstd::prelude::*;
use vstd::arithmetic::power2::*;
use crate::binary32::{Binary32, unit_scale};
use crate::accuracy::{
    abs, sized, within_scale, moderate, lemma_abs_product, lemma_cancel_bound,
    lemma_pow2_multiples, lemma_sized_product, lemma_mul_error, lemma_add_error, lemma_sub_error,
};
use crate::rounding::lemma_pow2_le;
use crate::vec3f::Vec3f32;

verus! {

/// One component of a cross product: the difference of two such products is
/// within one part in 2^20 of 2^(ea + eb - 298) of the exact difference.
proof fn lemma_cross_entry(
    a1: Binary32,
    b1: Binary32,
    a2: Binary32,
    b2: Binary32,
    ea: nat,
    eb: nat,
)
    requires
        moderate(ea),
        moderate(eb),
        sized(a1, ea),
        sized(a2, ea),
        sized(b1, eb),
        sized(b2, eb),
    ensures
        a1.spec_mul(b1).spec_sub(a2.spec_mul(b2)).is_finite(),
        abs(a1.spec_mul(b1).spec_sub(a2.spec_mul(b2)).scaled()) <= 3 * pow2(
            (ea + eb - 149) as nat,
        ),
        abs(
            a1.spec_mul(b1).spec_sub(a2.spec_mul(b2)).scaled() * unit_scale() - (a1.scaled()
                * b1.scaled() - a2.scaled() * b2.scaled()),
        ) <= pow2((ea + eb - 20) as nat),
{
    let unit = unit_scale();
    let k = ea + eb;
    let pa = a1.spec_mul(b1);
    let pb = a2.spec_mul(b2);
    let c = pa.spec_sub(pb);
    let scale = pow2((k - 149) as nat) as int;
    lemma_sized_product(a1, b1, ea, eb);
    lemma_sized_product(a2, b2, ea, eb);
    lemma2_to64();
    lemma_pow2_pos(149);
    lemma_pow2_multiples((k - 149) as nat);
    lemma_pow2_le((k - 171) as nat, (k - 149) as nat);
    lemma_pow2_le((k - 147) as nat, 276);
    lemma_pow2_le(22, (k - 149) as nat);
    lemma_pow2_adds(23, (k - 170) as nat);
    lemma_pow2_adds((k - 170) as nat, 149);
    lemma_pow2_multiples((k - 22) as nat);
    lemma_pow2_multiples((k - 21) as nat);
    lemma_pow2_le((k - 170) as nat, (k - 149) as nat);
    lemma_pow2_multiples((k - 171) as nat);
    lemma_pow2_multiples((k - 170) as nat);
    lemma_pow2_le((k - 169) as nat, (k - 149) as nat);
    lemma_sub_error(pa, pb);
    let e = c.scaled() - (pa.scaled() - pb.scaled());
    assert(abs(e) <= pow2((k - 170) as nat));
    let e1 = pa.scaled() * unit - a1.scaled() * b1.scaled();
    let e2 = pb.scaled() * unit - a2.scaled() * b2.scaled();
    lemma_abs_product(e, unit, pow2((k - 170) as nat) as int, unit);
    assert(c.scaled() * unit - (a1.scaled() * b1.scaled() - a2.scaled() * b2.scaled()) == e * unit
        + e1 - e2) by (nonlinear_arith)
        requires
            e == c.scaled() - (pa.scaled() - pb.scaled()),
            e1 == pa.scaled() * unit - a1.scaled() * b1.scaled(),
            e2 == pb.scaled() * unit - a2.scaled() * b2.scaled(),
    ;
}

/// One term of the dot product of such a cross product `c`, known as `i` to
/// within one part in 2^20, with a number of at most 2^(ev - 149) in size.
proof fn lemma_term_near(c: Binary32, v: Binary32, i: int, k: nat, ev: nat)
    requires
        218 <= k <= 378,
        moderate(ev),
        sized(v, ev),
        c.is_finite(),
        abs(c.scaled()) <= 3 * pow2((k - 149) as nat),
        abs(c.scaled() * unit_scale() - i) <= pow2((k - 20) as nat),
    ensures
        c.spec_mul(v).is_finite(),
        abs(c.spec_mul(v).scaled()) <= 4 * pow2((k + ev - 298) as nat),
        abs(c.spec_mul(v).scaled() * pow2(298) - i * v.scaled()) <= 3 * pow2((k + ev - 21) as nat),
{
    let unit = unit_scale();
    let kv = k + ev;
    let q = c.spec_mul(v);
    let exact = c.scaled() * v.scaled();
    let top = pow2((kv - 149) as nat) as int;
    lemma2_to64();
    lemma_pow2_pos(149);
    lemma_pow2_adds(149, 149);
    lemma_pow2_adds(276, 149);
    lemma_pow2_adds(22, 149);
    lemma_pow2_adds((k - 149) as nat, ev);
    lemma_pow2_multiples(top as nat);
    lemma_pow2_multiples((kv - 149) as nat);
    lemma_pow2_le((kv - 147) as nat, 425);
    lemma_pow2_le(171, (kv - 149) as nat);
    lemma_pow2_adds(23, (kv - 170) as nat);
    lemma_pow2_adds((kv - 298) as nat, 149);
    lemma_pow2_multiples((kv - 298) as nat);
    lemma_pow2_le((kv - 170) as nat, (kv - 149) as nat);
    lemma_pow2_adds((kv - 170) as nat, 149);
    lemma_pow2_adds((k - 20) as nat, ev);
    lemma_pow2_multiples((kv - 21) as nat);
    lemma_abs_product(
        c.scaled(),
        v.scaled(),
        (3 * pow2((k - 149) as nat)) as int,
        pow2(ev) as int,
    );
    assert((3 * pow2((k - 149) as nat)) * pow2(ev) == 3 * top) by (nonlinear_arith)
        requires
            pow2((k - 149) as nat) * pow2(ev) == top,
    ;
    lemma_mul_error(c, v);
    let e = q.scaled() * unit - exact;
    assert(abs(e) <= pow2((kv - 170) as nat));
    let room = 4 * pow2((kv - 298) as nat);
    assert(room * unit == 4 * top) by (nonlinear_arith)
        requires
            room == 4 * pow2((kv - 298) as nat),
            pow2((kv - 298) as nat) * unit == top,
    ;
    lemma_cancel_bound(q.scaled(), room as int, unit);
    let known = c.scaled() * unit - i;
    lemma_abs_product(e, unit, pow2((kv - 170) as nat) as int, unit);
    lemma_abs_product(known, v.scaled(), pow2((k - 20) as nat) as int, pow2(ev) as int);
    assert(q.scaled() * pow2(298) - i * v.scaled() == e * unit + known * v.scaled())
        by (nonlinear_arith)
        requires
            e == q.scaled() * unit - c.scaled() * v.scaled(),
            known == c.scaled() * unit - i,
            pow2(298) == unit * unit,
    ;
}

/// The dot product of such a cross product `c`, known as `(i1, i2, i3)`,
/// with a vector of at most 2^(ev - 149) in size is within one part in 2^16
/// of 2^(k + ev - 447) of the exact one.
proof fn lemma_dot_near(c: Vec3f32, v: Vec3f32, i1: int, i2: int, i3: int, k: nat, ev: nat)
    requires
        218 <= k <= 378,
        moderate(ev),
        within_scale(v, ev),
        c.is_finite(),
        abs(c.x.scaled()) <= 3 * pow2((k - 149) as nat),
        abs(c.y.scaled()) <= 3 * pow2((k - 149) as nat),
        abs(c.z.scaled()) <= 3 * pow2((k - 149) as nat),
        abs(c.x.scaled() * unit_scale() - i1) <= pow2((k - 20) as nat),
        abs(c.y.scaled() * unit_scale() - i2) <= pow2((k - 20) as nat),
        abs(c.z.scaled() * unit_scale() - i3) <= pow2((k - 20) as nat),
    ensures
        c.spec_dot(v).is_finite(),
        abs(
            c.spec_dot(v).scaled() * pow2(298) - (i1 * v.x.scaled() + i2 * v.y.scaled() + i3
                * v.z.scaled()),
        ) <= pow2((k + ev - 16) as nat),
{
    let kv = k + ev;
    let q1 = c.x.spec_mul(v.x);
    let q2 = c.y.spec_mul(v.y);
    let q3 = c.z.spec_mul(v.z);
    let s = q1.spec_add(q2);
    let d = s.spec_add(q3);
    let w = pow2(298) as int;
    let size = pow2((kv - 298) as nat) as int;
    lemma2_to64();
    lemma_pow2_multiples((kv - 298) as nat);
    lemma_pow2_le((kv - 294) as nat, 276);
    lemma_pow2_le(19, (kv - 298) as nat);
    lemma_pow2_adds(23, (kv - 317) as nat);
    lemma_pow2_adds((kv - 317) as nat, 298);
    lemma_pow2_le((kv - 317) as nat, (kv - 298) as nat);
    lemma_pow2_multiples((kv - 21) as nat);
    lemma_pow2_multiples((kv - 19) as nat);
    lemma_term_near(c.x, v.x, i1, k, ev);
    lemma_term_near(c.y, v.y, i2, k, ev);
    lemma_term_near(c.z, v.z, i3, k, ev);
    lemma_add_error(q1, q2);
    let es = s.scaled() - (q1.scaled() + q2.scaled());
    assert(abs(es) <= pow2((kv - 317) as nat));
    lemma_add_error(s, q3);
    let ed = d.scaled() - (s.scaled() + q3.scaled());
    assert(abs(ed) <= pow2((kv - 317) as nat));
    let t1 = q1.scaled() * w - i1 * v.x.scaled();
    let t2 = q2.scaled() * w - i2 * v.y.scaled();
    let t3 = q3.scaled() * w - i3 * v.z.scaled();
    lemma_abs_product(es, w, pow2((kv - 317) as nat) as int, w);
    lemma_abs_product(ed, w, pow2((kv - 317) as nat) as int, w);
    assert(d.scaled() * w - (i1 * v.x.scaled() + i2 * v.y.scaled() + i3 * v.z.scaled()) == t1 + t2
        + t3 + es * w + ed * w) by (nonlinear_arith)
        requires
            es == s.scaled() - (q1.scaled() + q2.scaled()),
            ed == d.scaled() - (s.scaled() + q3.scaled()),
            t1 == q1.scaled() * w - i1 * v.x.scaled(),
            t2 == q2.scaled() * w - i2 * v.y.scaled(),
            t3 == q3.scaled() * w - i3 * v.z.scaled(),
    ;
}

/// In exact arithmetic the cross product of `a` and `b` is orthogonal to `a`.
pub proof fn lemma_triple_cancels(a1: int, a2: int, a3: int, b1: int, b2: int, b3: int)
    ensures
        (a2 * b3 - a3 * b2) * a1 + (a3 * b1 - a1 * b3) * a2 + (a1 * b2 - a2 * b1) * a3 == 0,
{
    let t1 = (a1 * a2) * b3;
    let t2 = (a1 * a3) * b2;
    let t3 = (a2 * a3) * b1;
    assert((a2 * b3 - a3 * b2) * a1 == t1 - t2) by (nonlinear_arith)
        requires
            t1 == (a1 * a2) * b3,
            t2 == (a1 * a3) * b2,
    ;
    assert((a3 * b1 - a1 * b3) * a2 == t3 - t1) by (nonlinear_arith)
        requires
            t3 == (a2 * a3) * b1,
            t1 == (a1 * a2) * b3,
    ;
    assert((a1 * b2 - a2 * b1) * a3 == t2 - t3) by (nonlinear_arith)
        requires
            t2 == (a1 * a3) * b2,
            t3 == (a2 * a3) * b1,
    ;
}

/// The dot product of a cross product with either of its factors is zero up
/// to rounding. For a vector `a` whose components are at most 2^j in size
/// and a vector `b` whose components are at most 2^k in size, with `j` and
/// `k` from -40 to 40, the dot product of their cross product with `a` is
/// at most 2^(2j + k - 16) in size, and that with `b` at most 2^(j + 2k -
/// 16). (`ea` is `j + 149` and `eb` is `k + 149`.)
pub proof fn lemma_cross_product_orthogonal(a: Vec3f32, b: Vec3f32, ea: nat, eb: nat)
    requires
        moderate(ea),
        moderate(eb),
        within_scale(a, ea),
        within_scale(b, eb),
    ensures
        a.spec_cross(b).spec_dot(a).is_finite(),
        a.spec_cross(b).spec_dot(b).is_finite(),
        abs(a.spec_cross(b).spec_dot(a).scaled()) <= pow2((2 * ea + eb - 314) as nat),
        abs(a.spec_cross(b).spec_dot(b).scaled()) <= pow2((ea + 2 * eb - 314) as nat),
{
    let c = a.spec_cross(b);
    let k = ea + eb;
    let (a1, a2, a3) = (a.x.scaled(), a.y.scaled(), a.z.scaled());
    let (b1, b2, b3) = (b.x.scaled(), b.y.scaled(), b.z.scaled());
    let i1 = a2 * b3 - a3 * b2;
    let i2 = a3 * b1 - a1 * b3;
    let i3 = a1 * b2 - a2 * b1;
    lemma_cross_entry(a.y, b.z, a.z, b.y, ea, eb);
    lemma_cross_entry(a.z, b.x, a.x, b.z, ea, eb);
    lemma_cross_entry(a.x, b.y, a.y, b.x, ea, eb);
    lemma_dot_near(c, a, i1, i2, i3, k, ea);
    lemma_dot_near(c, b, i1, i2, i3, k, eb);
    lemma_triple_cancels(a1, a2, a3, b1, b2, b3);
    lemma_triple_cancels(b1, b2, b3, a1, a2, a3);
    assert(i1 * a1 + i2 * a2 + i3 * a3 == 0);
    assert(i1 * b1 + i2 * b2 + i3 * b3 == 0) by {
        assert(i1 * b1 == -((b2 * a3 - b3 * a2) * b1)) by (nonlinear_arith)
            requires
                i1 == a2 * b3 - a3 * b2,
        ;
        assert(i2 * b2 == -((b3 * a1 - b1 * a3) * b2)) by (nonlinear_arith)
            requires
                i2 == a3 * b1 - a1 * b3,
        ;
        assert(i3 * b3 == -((b1 * a2 - b2 * a1) * b3)) by (nonlinear_arith)
            requires
                i3 == a1 * b2 - a2 * b1,
        ;
    }
    lemma_pow2_pos(298);
    lemma_pow2_adds((k + ea - 314) as nat, 298);
    lemma_pow2_adds((k + eb - 314) as nat, 298);
    lemma_cancel_bound(c.spec_dot(a).scaled(), pow2((k + ea - 314) as nat) as int, pow2(298) as int);
    lemma_cancel_bound(c.spec_dot(b).scaled(), pow2((k + eb - 314) as nat) as int, pow2(298) as int);
}

/// For two vectors whose components are from -1 to 1, the dot product of
/// their cross product with either of them is at most 2^-16 in size.
pub proof fn lemma_cross_product_orthogonal_in_unit_cube(a: Vec3f32, b: Vec3f32)
    requires
        within_scale(a, 149),
        within_scale(b, 149),
    ensures
        a.spec_cross(b).spec_dot(a).is_finite(),
        a.spec_cross(b).spec_dot(b).is_finite(),
        0x1_0000 * abs(a.spec_cross(b).spec_dot(a).scaled()) <= unit_scale(),
        0x1_0000 * abs(a.spec_cross(b).spec_dot(b).scaled()) <= unit_scale(),
{
    lemma_cross_product_orthogonal(a, b, 149, 149);
    lemma2_to64();
    lemma_pow2_adds(16, 133);
}

} // verus!
