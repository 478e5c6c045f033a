use pong_core::ball::Racket;
use pong_core::interface::{frame, Context, Paddle, Place};
use pong_core::single::Single;

fn s(v: f32) -> Single {
    Single::from_bits(v.to_bits())
}

fn f(v: Single) -> f32 {
    f32::from_bits(v.to_bits())
}

#[derive(Clone, Copy)]
struct Bat {
    ticks: u8,
    tag: u8,
}

impl Racket for Bat {
    fn get_bounce_value_at(&self, _y: Single) -> Option<Single> {
        Some(s(0.0))
    }
}

impl Paddle for Bat {
    fn update(&mut self) {
        self.ticks += 1;
    }

    fn serialize(&self) -> [u8; 8] {
        [self.tag, self.ticks, 3, 4, 5, 6, 7, 8]
    }
}

fn ticks_of(place: &Place<Bat>) -> Option<u8> {
    match place {
        Place::Empty => None,
        Place::Player(bat) => Some(bat.ticks),
    }
}

#[test]
fn new_context_has_two_free_seats_and_a_resting_ball() {
    let context: Context<Bat> = Context::new();
    assert!(matches!(context.places[0], Place::Empty));
    assert!(matches!(context.places[1], Place::Empty));
    assert_eq!(context.ball.x.to_bits(), 0);
    assert_eq!(context.ball.y.to_bits(), 0);
    assert_eq!(context.ball.vx.to_bits(), 0);
    assert_eq!(context.ball.vy.to_bits(), 0);
    assert_eq!(f(context.ball.max_x), 5.0);
    assert_eq!(f(context.ball.min_x), -5.0);
    assert_eq!(f(context.ball.max_y), 5.0);
    assert_eq!(f(context.ball.min_y), -5.0);
}

#[test]
fn empty_context_moves_the_ball_by_the_wall_rules_alone() {
    let mut context: Context<Bat> = Context::new();
    context.ball.vx = s(3.0);
    context.ball.vy = s(-4.0);
    context.update();
    assert_eq!(f(context.ball.x), 3.0);
    assert_eq!(f(context.ball.y), -4.0);
    context.update();
    assert_eq!(f(context.ball.x), 4.0);
    assert_eq!(f(context.ball.vx), -3.0);
    assert_eq!(f(context.ball.y), -2.0);
    assert_eq!(f(context.ball.vy), 4.0);
    assert!(matches!(context.places[0], Place::Empty));
    assert!(matches!(context.places[1], Place::Empty));
}

#[test]
fn empty_context_serializes_to_sixteen_zeros_and_the_ball() {
    let mut context: Context<Bat> = Context::new();
    context.update();
    let bytes = context.serialize();
    assert_eq!(bytes.len(), 32);
    assert_eq!(bytes[0..16], [0u8; 16]);
    assert_eq!(bytes[16..32], context.ball.serialize());
    assert_eq!(bytes, vec![0u8; 32]);
}

#[test]
fn context_serializes_to_thirty_two_bytes_whatever_the_seats_hold() {
    let bat = Bat { ticks: 0, tag: 9 };
    let seats = [
        [Place::Empty, Place::Empty],
        [Place::Player(bat), Place::Empty],
        [Place::Empty, Place::Player(bat)],
        [Place::Player(bat), Place::Player(bat)],
    ];
    for places in seats {
        let mut context: Context<Bat> = Context::new();
        context.places = places;
        assert_eq!(context.serialize().len(), 32);
    }
}

#[test]
fn context_serializes_seats_then_ball() {
    let mut context: Context<Bat> = Context::new();
    context.places[1] = Place::Player(Bat { ticks: 2, tag: 0xb1 });
    context.ball.x = s(1.0);
    context.ball.y = s(-2.0);
    context.ball.vx = s(0.5);
    context.ball.vy = s(0.25);
    let bytes = context.serialize();
    assert_eq!(
        bytes,
        vec![
            0, 0, 0, 0, 0, 0, 0, 0, 0xb1, 2, 3, 4, 5, 6, 7, 8, 0, 0, 0x80, 0x3f, 0, 0, 0, 0xc0, 0,
            0, 0, 0x3f, 0, 0, 0x80, 0x3e
        ]
    );
    context.places[0] = Place::Player(Bat { ticks: 7, tag: 0xa0 });
    context.places[1] = Place::Empty;
    let bytes = context.serialize();
    assert_eq!(bytes[0..8], [0xa0, 7, 3, 4, 5, 6, 7, 8]);
    assert_eq!(bytes[8..16], [0u8; 8]);
    assert_eq!(bytes[16..32], context.ball.serialize());
}

#[test]
fn context_update_moves_each_paddle_present_once() {
    let mut context: Context<Bat> = Context::new();
    context.places[0] = Place::Player(Bat { ticks: 0, tag: 1 });
    context.update();
    assert_eq!(ticks_of(&context.places[0]), Some(1));
    assert_eq!(ticks_of(&context.places[1]), None);
    context.places[1] = Place::Player(Bat { ticks: 10, tag: 2 });
    context.update();
    assert_eq!(ticks_of(&context.places[0]), Some(2));
    assert_eq!(ticks_of(&context.places[1]), Some(11));
}

#[test]
fn context_update_moves_the_ball_once_whatever_the_seats_hold() {
    let bat = Bat { ticks: 0, tag: 9 };
    let seats = [
        [Place::Empty, Place::Empty],
        [Place::Player(bat), Place::Empty],
        [Place::Empty, Place::Player(bat)],
        [Place::Player(bat), Place::Player(bat)],
    ];
    for places in seats {
        let mut context: Context<Bat> = Context::new();
        context.places = places;
        context.ball.vx = s(4.5);
        context.ball.vy = s(-6.0);
        context.update();
        assert_eq!(f(context.ball.x), 4.5);
        assert_eq!(f(context.ball.vx), 4.5);
        assert_eq!(f(context.ball.y), -4.0);
        assert_eq!(f(context.ball.vy), 6.0);
        context.update();
        assert_eq!(f(context.ball.x), 1.0);
        assert_eq!(f(context.ball.vx), -4.5);
        assert_eq!(f(context.ball.y), 2.0);
        assert_eq!(f(context.ball.vy), 6.0);
    }
}

#[test]
fn place_update_moves_the_paddle_it_holds() {
    let mut place = Place::Player(Bat { ticks: 4, tag: 0 });
    place.update();
    assert_eq!(ticks_of(&place), Some(5));
    let mut free: Place<Bat> = Place::Empty;
    free.update();
    assert!(matches!(free, Place::Empty));
}

#[test]
fn place_serializes_to_zeros_or_to_the_paddle() {
    let free: Place<Bat> = Place::Empty;
    assert_eq!(free.serialize(), [0u8; 8]);
    let taken = Place::Player(Bat { ticks: 1, tag: 0xee });
    assert_eq!(taken.serialize(), [0xee, 1, 3, 4, 5, 6, 7, 8]);
}

#[test]
fn frame_joins_the_three_blocks_in_order() {
    let left = [1u8, 2, 3, 4, 5, 6, 7, 8];
    let right = [11u8, 12, 13, 14, 15, 16, 17, 18];
    let ball = [21u8, 22, 23, 24, 25, 26, 27, 28, 29, 30, 31, 32, 33, 34, 35, 36];
    assert_eq!(
        frame(left, right, ball),
        vec![
            1, 2, 3, 4, 5, 6, 7, 8, 11, 12, 13, 14, 15, 16, 17, 18, 21, 22, 23, 24, 25, 26, 27, 28,
            29, 30, 31, 32, 33, 34, 35, 36
        ]
    );
}
