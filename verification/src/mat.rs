//! Four by four matrices of binary32 numbers, stored row by row.

use vstd::prelude::*;
use vstd::std_specs::cmp::PartialEqSpecImpl;
use crate::binary32::Binary32;

verus! {

/// A four by four matrix. The entry in row `r` and column `c` is
/// `data[4 * r + c]`.
#[derive(Clone, Copy, Debug)]
pub struct Matrix44f32 {
    pub data: [Binary32; 16],
}

/// The three indices from 0 to 3 that are not `k`, in rising order.
pub open spec fn others_spec(k: int) -> (int, int, int) {
    (
        if k == 0 {
            1
        } else {
            0
        },
        if k <= 1 {
            2
        } else {
            1
        },
        if k <= 2 {
            3
        } else {
            2
        },
    )
}

/// The three indices from 0 to 3 that are not `k`, in rising order.
pub(crate) fn others(k: usize) -> (r: (usize, usize, usize))
    requires
        k < 4,
    ensures
        r.0 == others_spec(k as int).0,
        r.1 == others_spec(k as int).1,
        r.2 == others_spec(k as int).2,
        r.0 < r.1 < r.2 < 4,
        r.0 != k && r.1 != k && r.2 != k,
{
    (
        if k == 0 {
            1
        } else {
            0
        },
        if k <= 1 {
            2
        } else {
            1
        },
        if k <= 2 {
            3
        } else {
            2
        },
    )
}

impl Matrix44f32 {
    /// The entry in row `row` and column `col`.
    pub open spec fn at(self, row: int, col: int) -> Binary32 {
        self.data@[4 * row + col]
    }

    /// The entry of the product in row `i` and column `j`: the four
    /// products along the row of `self` and the column of `m2`, summed from
    /// left to right.
    pub open spec fn product_entry_spec(self, m2: Matrix44f32, i: int, j: int) -> Binary32 {
        self.at(i, 0).spec_mul(m2.at(0, j)).spec_add(self.at(i, 1).spec_mul(m2.at(1, j))).spec_add(
            self.at(i, 2).spec_mul(m2.at(2, j)),
        ).spec_add(self.at(i, 3).spec_mul(m2.at(3, j)))
    }

    /// The product of three entries, taken from left to right.
    pub open spec fn triple_spec(self, a: (int, int), b: (int, int), c: (int, int)) -> Binary32 {
        self.at(a.0, a.1).spec_mul(self.at(b.0, b.1)).spec_mul(self.at(c.0, c.1))
    }

    /// The entry of the adjugate in row `i` and column `j`: the determinant
    /// of what is left of the matrix without row `j` and column `i`, under
    /// the sign of the place.
    ///
    /// The determinant is expanded along the first column that is left, into
    /// six products of three entries. They are summed from left to right
    /// with the signs `+ - - + + -`, or with all six signs turned where `i +
    /// j` is odd.
    pub open spec fn adjugate_entry_spec(self, i: int, j: int) -> Binary32 {
        let (r0, r1, r2) = others_spec(j);
        let (c0, c1, c2) = others_spec(i);
        let t0 = self.triple_spec((r0, c0), (r1, c1), (r2, c2));
        let t1 = self.triple_spec((r0, c0), (r1, c2), (r2, c1));
        let t2 = self.triple_spec((r1, c0), (r0, c1), (r2, c2));
        let t3 = self.triple_spec((r1, c0), (r0, c2), (r2, c1));
        let t4 = self.triple_spec((r2, c0), (r0, c1), (r1, c2));
        let t5 = self.triple_spec((r2, c0), (r0, c2), (r1, c1));
        if (i + j) % 2 == 0 {
            t0.spec_sub(t1).spec_sub(t2).spec_add(t3).spec_add(t4).spec_sub(t5)
        } else {
            let first = self.at(r0, c0).spec_neg().spec_mul(self.at(r1, c1)).spec_mul(
                self.at(r2, c2),
            );
            first.spec_add(t1).spec_add(t2).spec_sub(t3).spec_sub(t4).spec_add(t5)
        }
    }

    /// The determinant, expanded along the first row with the first column
    /// of the adjugate.
    pub open spec fn determinant_spec(self) -> Binary32 {
        self.at(0, 0).spec_mul(self.adjugate_entry_spec(0, 0)).spec_add(
            self.at(0, 1).spec_mul(self.adjugate_entry_spec(1, 0)),
        ).spec_add(self.at(0, 2).spec_mul(self.adjugate_entry_spec(2, 0))).spec_add(
            self.at(0, 3).spec_mul(self.adjugate_entry_spec(3, 0)),
        )
    }

    /// The entry of the inverse in row `i` and column `j`: zero where the
    /// determinant equals zero, else the adjugate's entry times the inverse
    /// of the determinant.
    pub open spec fn inverse_entry_spec(self, i: int, j: int) -> Binary32 {
        let det = self.determinant_spec();
        if det.spec_equals(Binary32 { bits: 0 }) {
            Binary32 { bits: 0 }
        } else {
            self.adjugate_entry_spec(i, j).spec_mul(
                (Binary32 { bits: 0x3f80_0000 }).spec_div(det),
            )
        }
    }

    /// The matrix with the given entries, row by row.
    pub fn new(mat: [Binary32; 16]) -> (m: Matrix44f32)
        ensures
            m.data == mat,
    {
        Matrix44f32 { data: mat }
    }

    /// The matrix of zeros.
    pub fn zeroes() -> (m: Matrix44f32)
        ensures
            forall|k: int| 0 <= k < 16 ==> m.data@[k] == (Binary32 { bits: 0 }),
    {
        Matrix44f32 { data: [Binary32 { bits: 0 };16] }
    }

    /// The identity: ones on the diagonal, zeros elsewhere.
    pub fn identity() -> (m: Matrix44f32)
        ensures
            forall|i: int, j: int|
                0 <= i < 4 && 0 <= j < 4 ==> #[trigger] m.at(i, j) == if i == j {
                    Binary32 { bits: 0x3f80_0000 }
                } else {
                    Binary32 { bits: 0 }
                },
    {
        let o = Binary32 { bits: 0 };
        let l = Binary32 { bits: 0x3f80_0000 };
        let m = Matrix44f32 { data: [l, o, o, o, o, l, o, o, o, o, l, o, o, o, o, l] };
        assert forall|i: int, j: int| 0 <= i < 4 && 0 <= j < 4 implies #[trigger] m.at(i, j) == if i
            == j {
            l
        } else {
            o
        } by {
            let k = 4 * i + j;
            assert(0 <= k < 16);
            if k == 0 || k == 5 || k == 10 || k == 15 {
                assert(i == j);
            } else {
                assert(i != j);
            }
        }
        m
    }

    /// The entry in row `row` and column `col`.
    pub fn get(&self, row: usize, col: usize) -> (r: Binary32)
        requires
            row < 4,
            col < 4,
        ensures
            r == self.at(row as int, col as int),
    {
        self.data[4 * row + col]
    }

    /// Puts `value` in row `row` and column `col`; the other entries stay.
    pub fn set(&mut self, row: usize, col: usize, value: Binary32)
        requires
            row < 4,
            col < 4,
        ensures
            final(self).data@ == old(self).data@.update(4 * row + col, value),
            final(self).at(row as int, col as int) == value,
    {
        self.data[4 * row + col] = value;
    }

    /// The four entries of the row `row`.
    pub fn row(&self, row: usize) -> (r: [Binary32; 4])
        requires
            row < 4,
        ensures
            forall|col: int| 0 <= col < 4 ==> r@[col] == self.at(row as int, col),
    {
        let start = 4 * row;
        [self.data[start], self.data[start + 1], self.data[start + 2], self.data[start + 3]]
    }

    /// The matrix product `self * m2`.
    pub fn product(&self, m2: &Matrix44f32) -> (ret: Matrix44f32)
        ensures
            forall|i: int, j: int|
                0 <= i < 4 && 0 <= j < 4 ==> #[trigger] ret.at(i, j) == self.product_entry_spec(
                    *m2,
                    i,
                    j,
                ),
    {
        let mut ret = Matrix44f32::zeroes();
        let mut i: usize = 0;
        while i < 4
            invariant
                i <= 4,
                forall|a: int, b: int|
                    0 <= a < i && 0 <= b < 4 ==> #[trigger] ret.at(a, b) == self.product_entry_spec(
                        *m2,
                        a,
                        b,
                    ),
            decreases 4 - i,
        {
            let mut j: usize = 0;
            while j < 4
                invariant
                    i < 4,
                    j <= 4,
                    forall|a: int, b: int|
                        (0 <= a < i && 0 <= b < 4) || (a == i && 0 <= b < j) ==> #[trigger] ret.at(
                            a,
                            b,
                        ) == self.product_entry_spec(*m2, a, b),
                decreases 4 - j,
            {
                let v = self.get(i, 0) * m2.get(0, j) + self.get(i, 1) * m2.get(1, j) + self.get(i, 2)
                    * m2.get(2, j) + self.get(i, 3) * m2.get(3, j);
                let ghost before = ret;
                ret.data[4 * i + j] = v;
                assert(ret.data@ == before.data@.update(4 * i + j, v));
                assert forall|a: int, b: int|
                    (0 <= a < i && 0 <= b < 4) || (a == i && 0 <= b < j) implies #[trigger] ret.at(
                    a,
                    b,
                ) == before.at(a, b) by {
                    assert(4 * a + b != 4 * i + j);
                }
                j = j + 1;
            }
            i = i + 1;
        }
        ret
    }

    /// The transpose: rows and columns change places.
    pub fn transpose(&self) -> (ret: Matrix44f32)
        ensures
            forall|i: int, j: int|
                0 <= i < 4 && 0 <= j < 4 ==> #[trigger] ret.at(i, j) == self.at(j, i),
    {
        let mut ret = Matrix44f32::zeroes();
        let mut i: usize = 0;
        while i < 4
            invariant
                i <= 4,
                forall|a: int, b: int|
                    0 <= a < i && 0 <= b < 4 ==> #[trigger] ret.at(a, b) == self.at(b, a),
            decreases 4 - i,
        {
            let mut j: usize = 0;
            while j < 4
                invariant
                    i < 4,
                    j <= 4,
                    forall|a: int, b: int|
                        (0 <= a < i && 0 <= b < 4) || (a == i && 0 <= b < j) ==> #[trigger] ret.at(
                            a,
                            b,
                        ) == self.at(b, a),
                decreases 4 - j,
            {
                let ghost before = ret;
                ret.data[4 * i + j] = self.get(j, i);
                assert(ret.data@ == before.data@.update(4 * i + j, self.at(j as int, i as int)));
                assert forall|a: int, b: int|
                    (0 <= a < i && 0 <= b < 4) || (a == i && 0 <= b < j) implies #[trigger] ret.at(
                    a,
                    b,
                ) == before.at(a, b) by {
                    assert(4 * a + b != 4 * i + j);
                }
                j = j + 1;
            }
            i = i + 1;
        }
        ret
    }

    /// The product of three entries, taken from left to right.
    fn triple(&self, a: (usize, usize), b: (usize, usize), c: (usize, usize)) -> (r: Binary32)
        requires
            a.0 < 4 && a.1 < 4 && b.0 < 4 && b.1 < 4 && c.0 < 4 && c.1 < 4,
        ensures
            r == self.triple_spec(
                (a.0 as int, a.1 as int),
                (b.0 as int, b.1 as int),
                (c.0 as int, c.1 as int),
            ),
    {
        self.get(a.0, a.1) * self.get(b.0, b.1) * self.get(c.0, c.1)
    }

    /// The entry of the adjugate in row `i` and column `j`.
    pub fn adjugate_entry(&self, i: usize, j: usize) -> (r: Binary32)
        requires
            i < 4,
            j < 4,
        ensures
            r == self.adjugate_entry_spec(i as int, j as int),
    {
        let (r0, r1, r2) = others(j);
        let (c0, c1, c2) = others(i);
        let t1 = self.triple((r0, c0), (r1, c2), (r2, c1));
        let t2 = self.triple((r1, c0), (r0, c1), (r2, c2));
        let t3 = self.triple((r1, c0), (r0, c2), (r2, c1));
        let t4 = self.triple((r2, c0), (r0, c1), (r1, c2));
        let t5 = self.triple((r2, c0), (r0, c2), (r1, c1));
        if (i + j) % 2 == 0 {
            let t0 = self.triple((r0, c0), (r1, c1), (r2, c2));
            t0 - t1 - t2 + t3 + t4 - t5
        } else {
            let first = self.get(r0, c0).neg() * self.get(r1, c1) * self.get(r2, c2);
            first + t1 + t2 - t3 - t4 + t5
        }
    }

    /// The determinant.
    pub fn determinant(&self) -> (r: Binary32)
        ensures
            r == self.determinant_spec(),
    {
        self.get(0, 0) * self.adjugate_entry(0, 0) + self.get(0, 1) * self.adjugate_entry(1, 0)
            + self.get(0, 2) * self.adjugate_entry(2, 0) + self.get(0, 3) * self.adjugate_entry(
            3,
            0,
        )
    }

    /// The inverse: the adjugate times the inverse of the determinant, and
    /// the matrix of zeros where the determinant equals zero.
    pub fn inverse(&self) -> (inv: Matrix44f32)
        ensures
            forall|i: int, j: int|
                0 <= i < 4 && 0 <= j < 4 ==> #[trigger] inv.at(i, j) == self.inverse_entry_spec(
                    i,
                    j,
                ),
    {
        let mut inv = Matrix44f32::zeroes();
        let det = self.determinant();
        if det.equals(Binary32::zero()) {
            return inv;
        }
        let scale = Binary32::one() / det;
        let mut i: usize = 0;
        while i < 4
            invariant
                i <= 4,
                det == self.determinant_spec(),
                !det.spec_equals(Binary32 { bits: 0 }),
                scale == (Binary32 { bits: 0x3f80_0000 }).spec_div(det),
                forall|a: int, b: int|
                    0 <= a < i && 0 <= b < 4 ==> #[trigger] inv.at(a, b) == self.inverse_entry_spec(
                        a,
                        b,
                    ),
            decreases 4 - i,
        {
            let mut j: usize = 0;
            while j < 4
                invariant
                    i < 4,
                    j <= 4,
                    det == self.determinant_spec(),
                    !det.spec_equals(Binary32 { bits: 0 }),
                    scale == (Binary32 { bits: 0x3f80_0000 }).spec_div(det),
                    forall|a: int, b: int|
                        (0 <= a < i && 0 <= b < 4) || (a == i && 0 <= b < j) ==> #[trigger] inv.at(
                            a,
                            b,
                        ) == self.inverse_entry_spec(a, b),
                decreases 4 - j,
            {
                let v = self.adjugate_entry(i, j) * scale;
                let ghost before = inv;
                inv.data[4 * i + j] = v;
                assert(inv.data@ == before.data@.update(4 * i + j, v));
                assert forall|a: int, b: int|
                    (0 <= a < i && 0 <= b < 4) || (a == i && 0 <= b < j) implies #[trigger] inv.at(
                    a,
                    b,
                ) == before.at(a, b) by {
                    assert(4 * a + b != 4 * i + j);
                }
                j = j + 1;
            }
            i = i + 1;
        }
        inv
    }
}

/// Whether `t` is the transpose of `m`: rows and columns have changed
/// places.
pub open spec fn is_transpose(t: Matrix44f32, m: Matrix44f32) -> bool {
    forall|i: int, j: int| 0 <= i < 4 && 0 <= j < 4 ==> #[trigger] t.at(i, j) == m.at(j, i)
}

/// The transpose of the transpose is the matrix itself.
pub proof fn lemma_transpose_twice(m: Matrix44f32, t: Matrix44f32, tt: Matrix44f32)
    requires
        is_transpose(t, m),
        is_transpose(tt, t),
    ensures
        tt.data@ == m.data@,
{
    assert forall|k: int| 0 <= k < 16 implies tt.data@[k] == m.data@[k] by {
        let i = k / 4;
        let j = k % 4;
        assert(tt.at(i, j) == t.at(j, i));
        assert(t.at(j, i) == m.at(i, j));
    }
    assert(tt.data@ =~= m.data@);
}

impl PartialEq for Matrix44f32 {
    /// Whether all sixteen entries are equal by value: the two zeros are
    /// equal, and a NaN equals nothing, not even itself.
    fn eq(&self, other: &Matrix44f32) -> (r: bool) {
        let mut k: usize = 0;
        while k < 16
            invariant
                k <= 16,
                forall|m: int| 0 <= m < k ==> self.data@[m].spec_equals(other.data@[m]),
            decreases 16 - k,
        {
            if !self.data[k].equals(other.data[k]) {
                return false;
            }
            k = k + 1;
        }
        true
    }
}

impl PartialEqSpecImpl for Matrix44f32 {
    open spec fn obeys_eq_spec() -> bool {
        true
    }

    open spec fn eq_spec(&self, other: &Matrix44f32) -> bool {
        forall|m: int| 0 <= m < 16 ==> self.data@[m].spec_equals(other.data@[m])
    }
}

} // verus!
