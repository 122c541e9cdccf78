//! Colors with three double-precision channels.

use crate::arith::product::product;
use crate::arith::product::product_of;
use crate::arith::sum::difference;
use crate::arith::sum::difference_of;
use crate::arith::sum::sum;
use crate::arith::sum::sum_of;
use crate::scalar::Scalar;
use crate::scalar::ZERO_BITS;
use std::ops::Add;
use std::ops::Mul;
use std::ops::Sub;
use vstd::prelude::*;
use vstd::std_specs::cmp::PartialEqSpecImpl;
use vstd::std_specs::ops::AddSpecImpl;
use vstd::std_specs::ops::MulSpecImpl;
use vstd::std_specs::ops::SubSpecImpl;

verus! {

/// An RGB color. Channels are not clamped: values outside [0, 1] are valid
/// intermediate results.
#[derive(Debug, Clone, Copy)]
pub struct Color {
    pub red: Scalar,
    pub green: Scalar,
    pub blue: Scalar,
}

impl Color {
    /// The color with all channels zero.
    pub open spec fn black_spec() -> Color {
        Color {
            red: Scalar { bits: ZERO_BITS },
            green: Scalar { bits: ZERO_BITS },
            blue: Scalar { bits: ZERO_BITS },
        }
    }

    /// Tolerance equality on all three channels.
    pub open spec fn approx_eq_spec(self, other: Color) -> bool {
        self.red.approx_eq_spec(other.red) && self.green.approx_eq_spec(other.green)
            && self.blue.approx_eq_spec(other.blue)
    }

    /// The sum, channel by channel.
    pub open spec fn plus(self, other: Color) -> Color {
        Color {
            red: sum_of(self.red, other.red),
            green: sum_of(self.green, other.green),
            blue: sum_of(self.blue, other.blue),
        }
    }

    /// The difference, channel by channel.
    pub open spec fn minus(self, other: Color) -> Color {
        Color {
            red: difference_of(self.red, other.red),
            green: difference_of(self.green, other.green),
            blue: difference_of(self.blue, other.blue),
        }
    }

    /// Every channel multiplied by `k`.
    pub open spec fn times(self, k: Scalar) -> Color {
        Color {
            red: product_of(k, self.red),
            green: product_of(k, self.green),
            blue: product_of(k, self.blue),
        }
    }

    /// The product of two colors, channel by channel.
    pub open spec fn blend(self, other: Color) -> Color {
        Color {
            red: product_of(self.red, other.red),
            green: product_of(self.green, other.green),
            blue: product_of(self.blue, other.blue),
        }
    }

    /// The color with all channels zero.
    #[verifier::when_used_as_spec(black_spec)]
    pub fn black() -> (c: Color)
        ensures
            c == Color::black_spec(),
    {
        Color {
            red: Scalar { bits: ZERO_BITS },
            green: Scalar { bits: ZERO_BITS },
            blue: Scalar { bits: ZERO_BITS },
        }
    }
}

impl PartialEq for Color {
    /// Tolerance equality on all three channels.
    fn eq(&self, other: &Self) -> (r: bool) {
        self.red.approx_eq(other.red) && self.green.approx_eq(other.green) && self.blue.approx_eq(
            other.blue,
        )
    }
}

impl PartialEqSpecImpl for Color {
    open spec fn obeys_eq_spec() -> bool {
        true
    }

    open spec fn eq_spec(&self, other: &Self) -> bool {
        self.approx_eq_spec(*other)
    }
}

impl Add for Color {
    type Output = Color;

    /// The sum, channel by channel.
    fn add(self, other: Color) -> (r: Color) {
        Color {
            red: sum(self.red, other.red),
            green: sum(self.green, other.green),
            blue: sum(self.blue, other.blue),
        }
    }
}

impl AddSpecImpl for Color {
    open spec fn obeys_add_spec() -> bool {
        true
    }

    open spec fn add_req(self, other: Color) -> bool {
        true
    }

    open spec fn add_spec(self, other: Color) -> Color {
        self.plus(other)
    }
}

impl Sub for Color {
    type Output = Color;

    /// The difference, channel by channel.
    fn sub(self, other: Color) -> (r: Color) {
        Color {
            red: difference(self.red, other.red),
            green: difference(self.green, other.green),
            blue: difference(self.blue, other.blue),
        }
    }
}

impl SubSpecImpl for Color {
    open spec fn obeys_sub_spec() -> bool {
        true
    }

    open spec fn sub_req(self, other: Color) -> bool {
        true
    }

    open spec fn sub_spec(self, other: Color) -> Color {
        self.minus(other)
    }
}

impl Mul<Scalar> for Color {
    type Output = Color;

    /// Every channel multiplied by `rhs`.
    fn mul(self, rhs: Scalar) -> (r: Color) {
        Color {
            red: product(rhs, self.red),
            green: product(rhs, self.green),
            blue: product(rhs, self.blue),
        }
    }
}

impl MulSpecImpl<Scalar> for Color {
    open spec fn obeys_mul_spec() -> bool {
        true
    }

    open spec fn mul_req(self, rhs: Scalar) -> bool {
        true
    }

    open spec fn mul_spec(self, rhs: Scalar) -> Color {
        self.times(rhs)
    }
}

impl Mul for Color {
    type Output = Color;

    /// The blend of two colors: the product, channel by channel.
    fn mul(self, other: Color) -> (r: Color) {
        Color {
            red: product(self.red, other.red),
            green: product(self.green, other.green),
            blue: product(self.blue, other.blue),
        }
    }
}

impl MulSpecImpl for Color {
    open spec fn obeys_mul_spec() -> bool {
        true
    }

    open spec fn mul_req(self, other: Color) -> bool {
        true
    }

    open spec fn mul_spec(self, other: Color) -> Color {
        self.blend(other)
    }
}

} // verus!
