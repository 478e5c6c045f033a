//! The match: two seats, one ball, and the snapshot sent to the clients.
use crate::ball::{Ball, Racket};
use crate::single::Single;
use vstd::prelude::*;

verus! {

/// Bit pattern of the play area's height, 10.
pub const CONTEXT_HEIGHT: u32 = 0x4120_0000;

/// Bit pattern of the play area's width, 10.
pub const CONTEXT_WIDTH: u32 = 0x4120_0000;

/// Length of a snapshot.
pub const SNAPSHOT_BYTES: usize = 32;

/// What a match asks of a paddle besides the ball's [`Racket`].
pub trait Paddle: Racket {
    /// Moves the paddle by one tick.
    fn update(&mut self);

    /// The paddle's own state, as the eight bytes of its seat in a snapshot.
    fn serialize(&self) -> [u8; 8];
}

/// One of the two seats of a match: free, or taken by a paddle.
#[derive(Clone, Copy)]
pub enum Place<P> {
    Empty,
    Player(P),
}

/// The left seat, then the right one.
pub type Places<P> = [Place<P>; 2];

/// A match.
#[derive(Clone, Copy)]
pub struct Context<P> {
    pub places: Places<P>,
    pub ball: Ball,
}

/// The block of a free seat: eight zero bytes.
pub open spec fn vacant() -> Seq<u8> {
    Seq::new(8, |i: int| 0u8)
}

impl<P: Paddle> Place<P> {
    /// Moves the paddle in this seat, if there is one, by one tick.
    pub fn update(&mut self)
        ensures
            match (*old(self), *final(self)) {
                (Place::Empty, Place::Empty) => true,
                (Place::Player(before), Place::Player(after)) => exists|player: &mut P|
                    mut_ref_current(player) == before && mut_ref_future(player) == after
                        && #[trigger] call_ensures(P::update, (player,), ()),
                _ => false,
            },
    {
        // A free seat stays free; a taken seat holds the paddle as its own
        // `update` left it. The trait promises nothing of `update`: the
        // contract speaks of what the implementation promises.
        match self {
            Place::Player(player) => {
                player.update();
            },
            Place::Empty => {},
        }
    }

    /// The seat's block in a snapshot: what the paddle's own `serialize`
    /// gives, or zeros for a free seat.
    pub fn serialize(&self) -> (out: [u8; 8])
        ensures
            self is Empty ==> out@ == vacant(),
            self matches Place::Player(p) ==> call_ensures(P::serialize, (&p,), out),
    {
        match self {
            Place::Player(player) => player.serialize(),
            Place::Empty => {
                let out: [u8; 8] = [0; 8];
                assert(out@ =~= vacant());
                out
            },
        }
    }
}

/// Puts a snapshot together: the left seat's block, the right seat's block,
/// the ball's block.
pub fn frame(left: [u8; 8], right: [u8; 8], ball: [u8; 16]) -> (out: Vec<u8>)
    ensures
        out@ == left@ + right@ + ball@,
{
    let mut out: Vec<u8> = Vec::with_capacity(SNAPSHOT_BYTES);
    out.extend_from_slice(left.as_slice());
    out.extend_from_slice(right.as_slice());
    out.extend_from_slice(ball.as_slice());
    assert(out@ =~= left@ + right@ + ball@);
    out
}

impl<P: Paddle> Context<P> {
    /// A match with both seats free and the ball at rest in the centre.
    pub fn new() -> (context: Context<P>)
        ensures
            context.places[0] is Empty,
            context.places[1] is Empty,
            context.ball == Ball::fresh(Single { bits: CONTEXT_HEIGHT }, Single { bits: CONTEXT_WIDTH }),
    {
        Context {
            places: [Place::Empty, Place::Empty],
            ball: Ball::new(Single::from_bits(CONTEXT_HEIGHT), Single::from_bits(CONTEXT_WIDTH)),
        }
    }

    /// Advances the match by one tick: the paddles present first, each by
    /// its own `update`, then the ball. The ball moves whether or not the
    /// seats are taken; it is shown the paddles only when both are.
    pub fn update(&mut self)
        ensures
            final(self).ball == old(self).ball.advanced(),
            match (old(self).places[0], final(self).places[0]) {
                (Place::Empty, Place::Empty) => true,
                (Place::Player(before), Place::Player(after)) => exists|player: &mut P|
                    mut_ref_current(player) == before && mut_ref_future(player) == after
                        && #[trigger] call_ensures(P::update, (player,), ()),
                _ => false,
            },
            match (old(self).places[1], final(self).places[1]) {
                (Place::Empty, Place::Empty) => true,
                (Place::Player(before), Place::Player(after)) => exists|player: &mut P|
                    mut_ref_current(player) == before && mut_ref_future(player) == after
                        && #[trigger] call_ensures(P::update, (player,), ()),
                _ => false,
            },
    {
        self.places[0].update();
        self.places[1].update();
        match (&self.places[0], &self.places[1]) {
            (Place::Player(left), Place::Player(right)) => {
                self.ball.update([left, right]);
            },
            _ => {
                self.ball.advance();
            },
        }
    }

    /// The snapshot of the match: 32 bytes, the two seats' blocks and then
    /// the ball's. A free seat's block is zeros, a taken seat's is what its
    /// paddle's `serialize` gives.
    pub fn serialize(&self) -> (out: Vec<u8>)
        ensures
            out@.len() == 32,
            self.places[0] is Empty ==> out@.subrange(0, 8) == vacant(),
            self.places[1] is Empty ==> out@.subrange(8, 16) == vacant(),
            self.places[0] matches Place::Player(player) ==> exists|block: [u8; 8]|
                block@ == out@.subrange(0, 8) && #[trigger] call_ensures(
                    P::serialize,
                    (&player,),
                    block,
                ),
            self.places[1] matches Place::Player(player) ==> exists|block: [u8; 8]|
                block@ == out@.subrange(8, 16) && #[trigger] call_ensures(
                    P::serialize,
                    (&player,),
                    block,
                ),
            out@.subrange(16, 32) == self.ball.wire(),
    {
        let left = self.places[0].serialize();
        let right = self.places[1].serialize();
        let ball = self.ball.serialize();
        let out = frame(left, right, ball);
        assert(out@.subrange(0, 8) =~= left@);
        assert(out@.subrange(8, 16) =~= right@);
        assert(out@.subrange(16, 32) =~= ball@);
        out
    }
}

} // verus!
