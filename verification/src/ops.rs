//! The operators `+ - * /` and unary `-` on binary32 numbers.

use vstd::prelude::*;
use vstd::std_specs::ops::{AddSpecImpl, SubSpecImpl, MulSpecImpl, DivSpecImpl, NegSpecImpl};
use crate::binary32::Binary32;

verus! {

impl core::ops::Add for Binary32 {
    type Output = Binary32;

    fn add(self, rhs: Binary32) -> (r: Binary32) {
        Binary32::add(self, rhs)
    }
}

impl AddSpecImpl for Binary32 {
    open spec fn obeys_add_spec() -> bool {
        true
    }

    open spec fn add_req(self, rhs: Binary32) -> bool {
        true
    }

    open spec fn add_spec(self, rhs: Binary32) -> Binary32 {
        self.spec_add(rhs)
    }
}

impl core::ops::Sub for Binary32 {
    type Output = Binary32;

    fn sub(self, rhs: Binary32) -> (r: Binary32) {
        Binary32::sub(self, rhs)
    }
}

impl SubSpecImpl for Binary32 {
    open spec fn obeys_sub_spec() -> bool {
        true
    }

    open spec fn sub_req(self, rhs: Binary32) -> bool {
        true
    }

    open spec fn sub_spec(self, rhs: Binary32) -> Binary32 {
        self.spec_sub(rhs)
    }
}

impl core::ops::Mul for Binary32 {
    type Output = Binary32;

    fn mul(self, rhs: Binary32) -> (r: Binary32) {
        Binary32::mul(self, rhs)
    }
}

impl MulSpecImpl for Binary32 {
    open spec fn obeys_mul_spec() -> bool {
        true
    }

    open spec fn mul_req(self, rhs: Binary32) -> bool {
        true
    }

    open spec fn mul_spec(self, rhs: Binary32) -> Binary32 {
        self.spec_mul(rhs)
    }
}

impl core::ops::Div for Binary32 {
    type Output = Binary32;

    fn div(self, rhs: Binary32) -> (r: Binary32) {
        Binary32::div(self, rhs)
    }
}

impl DivSpecImpl for Binary32 {
    open spec fn obeys_div_spec() -> bool {
        true
    }

    open spec fn div_req(self, rhs: Binary32) -> bool {
        true
    }

    open spec fn div_spec(self, rhs: Binary32) -> Binary32 {
        self.spec_div(rhs)
    }
}

impl core::ops::Neg for Binary32 {
    type Output = Binary32;

    fn neg(self) -> (r: Binary32) {
        Binary32::neg(self)
    }
}

impl NegSpecImpl for Binary32 {
    open spec fn obeys_neg_spec() -> bool {
        true
    }

    open spec fn neg_req(self) -> bool {
        true
    }

    open spec fn neg_spec(self) -> Binary32 {
        self.spec_neg()
    }
}

} // verus!
