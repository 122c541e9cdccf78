//! A projectile in flight: one step of its motion, and its place on a
//! canvas whose bottom edge is the ground.

use crate::arith::order::is_below;
use crate::arith::whole::index_of;
use crate::scalar::Scalar;
use crate::scalar::ZERO_BITS;
use crate::tuple::Tuple;
use vstd::prelude::*;

verus! {

/// A body with a position, which is a point, and a velocity, which is a
/// vector.
#[derive(Debug, Clone, Copy)]
pub struct Projectile {
    pub position: Tuple,
    pub velocity: Tuple,
}

/// What acts on a projectile at every step: both are vectors.
#[derive(Debug, Clone, Copy)]
pub struct Environment {
    pub gravity: Tuple,
    pub wind: Tuple,
}

impl Projectile {
    /// Whether the projectile is above the ground: its height is above zero.
    pub open spec fn is_aloft_spec(&self) -> bool {
        is_below(Scalar { bits: ZERO_BITS }, self.position.y)
    }

    /// Whether the projectile is above the ground.
    #[verifier::when_used_as_spec(is_aloft_spec)]
    pub fn is_aloft(&self) -> (r: bool)
        ensures
            r == self.is_aloft_spec(),
    {
        (Scalar { bits: ZERO_BITS }).less_than(self.position.y)
    }

    /// Column and row of the pixel at the projectile's position, on a canvas
    /// of `height` rows: the column is x and the row is `height` less y, both
    /// coordinates rounded to the nearest index. Nothing where the
    /// projectile is above the top of the canvas.
    pub fn pixel(&self, height: usize) -> (r: Option<(usize, usize)>)
        ensures
            index_of(self.position.y) <= height ==> r == Some(
                (
                    index_of(self.position.x) as usize,
                    (height - index_of(self.position.y)) as usize,
                ),
            ),
            index_of(self.position.y) > height ==> r is None,
    {
        let column = self.position.x.round_to_index();
        let up = self.position.y.round_to_index();
        if up > height {
            None
        } else {
            Some((column, height - up))
        }
    }
}

/// The projectile one step on: it has moved by its velocity, and its
/// velocity has taken up gravity, then wind.
pub fn tick(env: &Environment, proj: &Projectile) -> (next: Projectile)
    ensures
        next.position == proj.position.plus(proj.velocity),
        next.velocity == proj.velocity.plus(env.gravity).plus(env.wind),
{
    let position = proj.position + proj.velocity;
    let velocity = proj.velocity + env.gravity + env.wind;
    Projectile { position, velocity }
}

} // verus!
