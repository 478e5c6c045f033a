//! The ball: position, velocity and the walls it bounces off.
use crate::rounding::lemma_zero;
use crate::single::{
    lemma_half_is_nearest, lemma_le_bytes_round_trip, lemma_neg, lemma_plus_keeps_side, Single,
};
use vstd::prelude::*;

verus! {

/// What the ball asks of a paddle: where along its face the ball would strike
/// at the height `y`, or `None` if it would miss.
pub trait Racket {
    fn get_bounce_value_at(&self, y: Single) -> Option<Single>;
}

/// A ball in a rectangular play area whose centre is the origin.
///
/// `x`, `y` is the position and `vx`, `vy` the velocity per tick. The other
/// four fields are the walls; [`Ball::new`] sets them and no tick moves them.
#[derive(Clone, Copy)]
pub struct Ball {
    pub x: Single,
    pub y: Single,
    pub vx: Single,
    pub vy: Single,
    pub max_y: Single,
    pub min_y: Single,
    pub max_x: Single,
    pub min_x: Single,
}

/// Position and velocity along one axis after contact with the walls at `min`
/// and `max` is resolved.
///
/// A position at or beyond a wall is mirrored back by the depth it went past
/// the wall, and the velocity changes sign. Any other position, one that is
/// not a number included, is left as it is.
pub open spec fn reflected(pos: Single, vel: Single, min: Single, max: Single) -> (Single, Single) {
    if pos.spec_ge(max) {
        (max.spec_minus(pos.spec_minus(max)), vel.spec_neg())
    } else if pos.spec_le(min) {
        (min.spec_minus(pos.spec_minus(min)), vel.spec_neg())
    } else {
        (pos, vel)
    }
}

/// Whether `pos` lies between the walls, the walls included.
pub open spec fn within(pos: Single, min: Single, max: Single) -> bool {
    min.spec_le(pos) && pos.spec_le(max)
}

/// Whether the depth by which `pos` has gone past the wall it reached is a
/// finite number no larger than the distance between the walls.
pub open spec fn overshoot_fits(pos: Single, min: Single, max: Single) -> bool {
    let width = max.scaled() - min.scaled();
    if pos.spec_ge(max) {
        pos.spec_minus(max).is_finite() && pos.spec_minus(max).scaled() <= width
    } else if pos.spec_le(min) {
        pos.spec_minus(min).is_finite() && -pos.spec_minus(min).scaled() <= width
    } else {
        true
    }
}

/// Resolves contact with the walls along one axis.
///
/// A position strictly between the walls comes back unchanged, together with
/// its velocity.
pub fn reflect(pos: Single, vel: Single, min: Single, max: Single) -> (out: (Single, Single))
    ensures
        out == reflected(pos, vel, min, max),
        min.spec_lt(pos) && pos.spec_lt(max) ==> out == (pos, vel),
{
    if pos.ge(max) {
        (max.minus(pos.minus(max)), vel.negate())
    } else if pos.le(min) {
        (min.minus(pos.minus(min)), vel.negate())
    } else {
        (pos, vel)
    }
}

impl Ball {
    /// Whether the walls are finite and stand in order on both axes.
    pub open spec fn walls_in_order(self) -> bool {
        &&& self.min_x.is_finite()
        &&& self.max_x.is_finite()
        &&& self.min_y.is_finite()
        &&& self.max_y.is_finite()
        &&& self.min_x.spec_le(self.max_x)
        &&& self.min_y.spec_le(self.max_y)
    }

    /// Whether the ball lies between the walls on both axes.
    pub open spec fn inside(self) -> bool {
        within(self.x, self.min_x, self.max_x) && within(self.y, self.min_y, self.max_y)
    }

    /// The position one tick later, before contact with the walls is
    /// resolved: one unit of time at the current velocity.
    pub open spec fn drifted(self) -> (Single, Single) {
        (self.x.spec_plus(self.vx), self.y.spec_plus(self.vy))
    }

    /// The ball one tick later: moved by its velocity, then reflected off the
    /// walls, each axis by itself.
    pub open spec fn advanced(self) -> Ball {
        let (x, vx) = reflected(self.drifted().0, self.vx, self.min_x, self.max_x);
        let (y, vy) = reflected(self.drifted().1, self.vy, self.min_y, self.max_y);
        Ball { x, y, vx, vy, ..self }
    }

    /// A ball at rest in the centre of a play area of the given size: the
    /// walls stand at half the height above and below the centre, and at half
    /// the width to its right and left.
    pub open spec fn fresh(height: Single, width: Single) -> Ball {
        Ball {
            x: Single { bits: 0 },
            y: Single { bits: 0 },
            vx: Single { bits: 0 },
            vy: Single { bits: 0 },
            max_y: height.spec_half(),
            min_y: height.spec_half().spec_neg(),
            max_x: width.spec_half(),
            min_x: width.spec_half().spec_neg(),
        }
    }

    /// The sixteen bytes of a snapshot: `x`, `y`, `vx`, `vy`, each as four
    /// little-endian bytes.
    pub open spec fn wire(self) -> Seq<u8> {
        self.x.le_bytes() + self.y.le_bytes() + self.vx.le_bytes() + self.vy.le_bytes()
    }

    /// A ball at rest in the centre of a play area of the given size.
    pub fn new(context_height: Single, context_width: Single) -> (ball: Ball)
        ensures
            ball == Ball::fresh(context_height, context_width),
    {
        let max_y = context_height.half();
        let max_x = context_width.half();
        Ball {
            x: Single::zero(),
            y: Single::zero(),
            vx: Single::zero(),
            vy: Single::zero(),
            max_y,
            min_y: max_y.negate(),
            max_x,
            min_x: max_x.negate(),
        }
    }

    /// Moves the ball by one tick and bounces it off the walls.
    pub fn advance(&mut self)
        ensures
            *final(self) == old(self).advanced(),
    {
        let (x, vx) = reflect(self.x.plus(self.vx), self.vx, self.min_x, self.max_x);
        let (y, vy) = reflect(self.y.plus(self.vy), self.vy, self.min_y, self.max_y);
        self.x = x;
        self.vx = vx;
        self.y = y;
        self.vy = vy;
    }

    /// Moves the ball by one tick. The paddles are taken but not consulted:
    /// the ball meets the four walls only.
    pub fn update(&mut self, _rackets: [&dyn Racket; 2])
        ensures
            *final(self) == old(self).advanced(),
    {
        self.advance();
    }

    /// The ball's part of a snapshot.
    pub fn serialize(&self) -> (out: [u8; 16])
        ensures
            out@ == self.wire(),
    {
        let x = self.x.to_le_bytes();
        let y = self.y.to_le_bytes();
        let vx = self.vx.to_le_bytes();
        let vy = self.vy.to_le_bytes();
        let out: [u8; 16] = [
            x[0], x[1], x[2], x[3], y[0], y[1], y[2], y[3], vx[0], vx[1], vx[2], vx[3], vy[0],
            vy[1], vy[2], vy[3],
        ];
        assert(out@ =~= self.wire());
        out
    }
}

/// A ball whose next position lies strictly between the walls on both axes
/// takes that position and keeps its velocity.
pub proof fn lemma_free_flight(ball: Ball)
    requires
        ball.min_x.spec_lt(ball.drifted().0),
        ball.drifted().0.spec_lt(ball.max_x),
        ball.min_y.spec_lt(ball.drifted().1),
        ball.drifted().1.spec_lt(ball.max_y),
    ensures
        ball.advanced().vx == ball.vx,
        ball.advanced().vy == ball.vy,
        ball.advanced().x == ball.drifted().0,
        ball.advanced().y == ball.drifted().1,
{
}

/// A ball that reaches or passes the right wall turns round: its horizontal
/// velocity changes sign, and it stands as far inside the wall as it had gone
/// past it.
pub proof fn lemma_bounce_right(ball: Ball)
    requires
        ball.drifted().0.spec_ge(ball.max_x),
    ensures
        ball.advanced().vx == ball.vx.spec_neg(),
        ball.advanced().x == ball.max_x.spec_minus(ball.drifted().0.spec_minus(ball.max_x)),
{
}

/// The same at the left wall, for a ball that has not reached the right one.
pub proof fn lemma_bounce_left(ball: Ball)
    requires
        ball.drifted().0.spec_le(ball.min_x),
        !ball.drifted().0.spec_ge(ball.max_x),
    ensures
        ball.advanced().vx == ball.vx.spec_neg(),
        ball.advanced().x == ball.min_x.spec_minus(ball.drifted().0.spec_minus(ball.min_x)),
{
}

/// The same at the top wall.
pub proof fn lemma_bounce_top(ball: Ball)
    requires
        ball.drifted().1.spec_ge(ball.max_y),
    ensures
        ball.advanced().vy == ball.vy.spec_neg(),
        ball.advanced().y == ball.max_y.spec_minus(ball.drifted().1.spec_minus(ball.max_y)),
{
}

/// The same at the bottom wall, for a ball that has not reached the top one.
pub proof fn lemma_bounce_bottom(ball: Ball)
    requires
        ball.drifted().1.spec_le(ball.min_y),
        !ball.drifted().1.spec_ge(ball.max_y),
    ensures
        ball.advanced().vy == ball.vy.spec_neg(),
        ball.advanced().y == ball.min_y.spec_minus(ball.drifted().1.spec_minus(ball.min_y)),
{
}

/// Reflection brings a position back between the walls, provided the walls
/// are finite and in order, the position is finite, and it has not gone
/// further past a wall than the walls are apart.
pub proof fn lemma_reflected_within(pos: Single, vel: Single, min: Single, max: Single)
    requires
        min.is_finite(),
        max.is_finite(),
        pos.is_finite(),
        min.spec_le(max),
        overshoot_fits(pos, min, max),
    ensures
        within(reflected(pos, vel, min, max).0, min, max),
{
    if pos.spec_ge(max) {
        let depth = pos.spec_minus(max);
        lemma_neg(max);
        lemma_plus_keeps_side(pos, max.spec_neg(), Single { bits: 0 });
        lemma_neg(depth);
        lemma_plus_keeps_side(max, depth.spec_neg(), max);
        lemma_plus_keeps_side(max, depth.spec_neg(), min);
        lemma_zero();
    } else if pos.spec_le(min) {
        let depth = pos.spec_minus(min);
        lemma_neg(min);
        lemma_plus_keeps_side(pos, min.spec_neg(), Single { bits: 0 });
        lemma_neg(depth);
        lemma_plus_keeps_side(min, depth.spec_neg(), max);
        lemma_plus_keeps_side(min, depth.spec_neg(), min);
        lemma_zero();
    }
}

/// A new ball lies between its walls, which are finite and in order,
/// provided the play area has a finite size that is not negative.
pub proof fn lemma_fresh_inside(height: Single, width: Single)
    requires
        height.is_finite(),
        width.is_finite(),
        !height.sign(),
        !width.sign(),
    ensures
        Ball::fresh(height, width).walls_in_order(),
        Ball::fresh(height, width).inside(),
{
    lemma_zero();
    lemma_half_is_nearest(height, height);
    lemma_half_is_nearest(width, width);
    lemma_neg(height.spec_half());
    lemma_neg(width.spec_half());
}

/// After a tick the ball lies between the walls on both axes, provided the
/// walls are finite and in order, the ball's next position is finite, and on
/// neither axis has it gone further past a wall than the walls are apart.
pub proof fn lemma_stays_inside(ball: Ball)
    requires
        ball.walls_in_order(),
        ball.drifted().0.is_finite(),
        ball.drifted().1.is_finite(),
        overshoot_fits(ball.drifted().0, ball.min_x, ball.max_x),
        overshoot_fits(ball.drifted().1, ball.min_y, ball.max_y),
    ensures
        ball.advanced().walls_in_order(),
        ball.advanced().inside(),
{
    lemma_reflected_within(ball.drifted().0, ball.vx, ball.min_x, ball.max_x);
    lemma_reflected_within(ball.drifted().1, ball.vy, ball.min_y, ball.max_y);
}

/// A snapshot of the ball is sixteen bytes long, and reading its four groups
/// of four bytes as little-endian singles gives `x`, `y`, `vx` and `vy` back,
/// bit for bit.
pub proof fn lemma_wire_round_trip(ball: Ball)
    ensures
        ball.wire().len() == 16,
        Single::spec_from_le_bytes(ball.wire().subrange(0, 4)) == ball.x,
        Single::spec_from_le_bytes(ball.wire().subrange(4, 8)) == ball.y,
        Single::spec_from_le_bytes(ball.wire().subrange(8, 12)) == ball.vx,
        Single::spec_from_le_bytes(ball.wire().subrange(12, 16)) == ball.vy,
{
    lemma_le_bytes_round_trip(ball.x);
    lemma_le_bytes_round_trip(ball.y);
    lemma_le_bytes_round_trip(ball.vx);
    lemma_le_bytes_round_trip(ball.vy);
    assert(ball.wire().subrange(0, 4) =~= ball.x.le_bytes());
    assert(ball.wire().subrange(4, 8) =~= ball.y.le_bytes());
    assert(ball.wire().subrange(8, 12) =~= ball.vx.le_bytes());
    assert(ball.wire().subrange(12, 16) =~= ball.vy.le_bytes());
}

} // verus!
