use across::numeric::{div_floor, isqrt};
use across::vector::{distance_between, interpolated, Vector};
use across::{multi_try, GameMode, Updated, SCREEN_HEIGHT, SCREEN_WIDTH, STARTING_LIVES};
use std::cell::Cell;

#[test]
fn integer_square_roots() {
    assert_eq!(isqrt(0), 0);
    assert_eq!(isqrt(1), 1);
    assert_eq!(isqrt(2), 1);
    assert_eq!(isqrt(3), 1);
    assert_eq!(isqrt(4), 2);
    assert_eq!(isqrt(24), 4);
    assert_eq!(isqrt(25), 5);
    assert_eq!(isqrt(1_000_000), 1000);
    assert_eq!(isqrt(u128::MAX), u64::MAX);
    assert_eq!(isqrt((u64::MAX as u128) * (u64::MAX as u128)), u64::MAX);
    assert_eq!(isqrt((u64::MAX as u128) * (u64::MAX as u128) - 1), u64::MAX - 1);
}

#[test]
fn division_rounds_down() {
    assert_eq!(div_floor(7, 2), 3);
    assert_eq!(div_floor(-7, 2), -4);
    assert_eq!(div_floor(-8, 2), -4);
    assert_eq!(div_floor(0, 5), 0);
    assert_eq!(div_floor(-1, 5), -1);
    assert_eq!(div_floor(i128::MAX, 1), i128::MAX);
    assert_eq!(div_floor(i128::MIN + 1, i128::MAX), -1);
}

#[test]
fn vector_lengths() {
    assert_eq!(Vector::new(3, 4).length(), 5);
    assert_eq!(Vector::new(3, 4).sqr_length(), 25);
    assert_eq!(Vector::new(1, 1).length(), 1);
    assert_eq!(Vector::zero().length(), 0);
    assert_eq!(Vector::new(i32::MIN, i32::MIN).sqr_length(), 1 << 63);
    assert_eq!(Vector::new(i32::MIN, i32::MIN).length(), 3_037_000_499);
}

#[test]
fn distances() {
    assert_eq!(distance_between(Vector::new(1, 1), Vector::new(4, 5)), 5);
    assert_eq!(distance_between(Vector::new(4, 5), Vector::new(1, 1)), 5);
    assert_eq!(distance_between(Vector::new(2, 2), Vector::new(2, 2)), 0);
    assert_eq!(
        distance_between(Vector::new(i32::MIN, i32::MIN), Vector::new(i32::MAX, i32::MAX)),
        6_074_000_998
    );
}

#[test]
fn vector_constants() {
    assert_eq!(Vector::zero(), Vector { x: 0, y: 0 });
    assert_eq!(Vector::right(), Vector { x: 1, y: 0 });
    assert_eq!(Vector::up(), Vector { x: 0, y: 1 });
    assert_eq!(Vector::default(), Vector::zero());
}

#[test]
fn vector_operators() {
    let a = Vector::new(3, -4);
    let b = Vector::new(10, 20);
    assert_eq!(a + b, Vector::new(13, 16));
    assert_eq!(a - b, Vector::new(-7, -24));
    assert_eq!(a * 3, Vector::new(9, -12));
    assert_eq!(b / 3, Vector::new(3, 6));
    assert_eq!(a / 2, Vector::new(1, -2));
    assert_eq!(-a, Vector::new(-3, 4));
}

#[test]
fn vector_products_and_turns() {
    let a = Vector::new(3, -4);
    let b = Vector::new(10, 20);
    assert_eq!(a.dot(b), -50);
    assert_eq!(a.clockwise_90deg(), Vector::new(-4, -3));
    assert_eq!(a.anticlockwise_90deg(), Vector::new(4, 3));
    assert_eq!(a.min(b), Vector::new(3, -4));
    assert_eq!(a.max(b), Vector::new(10, 20));
    assert_eq!(Vector::new(5, 30).min(Vector::new(7, 2)), Vector::new(5, 2));
    assert_eq!(Vector::new(5, 30).max(Vector::new(7, 2)), Vector::new(7, 30));
}

#[test]
fn vector_projection() {
    assert_eq!(Vector::new(3, 4).project(Vector::new(10, 0)), Vector::new(3, 0));
    assert_eq!(Vector::new(3, 4).project(Vector::new(0, -2)), Vector::new(0, 4));
    assert_eq!(Vector::new(4, 0).project(Vector::new(1, 1)), Vector::new(2, 2));
    assert_eq!(Vector::new(-3, 0).project(Vector::new(2, 0)), Vector::new(-3, 0));
}

#[test]
fn interpolation_between_points() {
    let a = Vector::new(0, 10);
    let b = Vector::new(10, 0);
    assert_eq!(interpolated(a, b, 0, 4), a);
    assert_eq!(interpolated(a, b, 4, 4), b);
    assert_eq!(interpolated(a, b, 1, 4), Vector::new(2, 7));
    assert_eq!(interpolated(a, b, 3, 0), a);
}

#[test]
fn multi_try_returns_the_first_success() {
    let calls = Cell::new(0);
    let first = multi_try(
        |limit: u32| {
            calls.set(calls.get() + 1);
            if calls.get() >= limit {
                Ok(calls.get())
            } else {
                Err("not yet")
            }
        },
        3,
        5,
    );
    assert_eq!(first, Some(3));
    assert_eq!(calls.get(), 3);
}

#[test]
fn multi_try_gives_up_after_the_last_try() {
    let calls = Cell::new(0);
    let first: Option<u32> = multi_try(
        |_: ()| {
            calls.set(calls.get() + 1);
            Err(())
        },
        (),
        3,
    );
    assert_eq!(first, None);
    assert_eq!(calls.get(), 3);
}

#[test]
fn multi_try_without_tries_calls_nothing() {
    let calls = Cell::new(0);
    let first: Option<u32> = multi_try(
        |_: ()| -> Result<u32, ()> {
            calls.set(calls.get() + 1);
            Ok(1)
        },
        (),
        0,
    );
    assert_eq!(first, None);
    assert_eq!(calls.get(), 0);
}

#[test]
fn game_constants() {
    assert_eq!(SCREEN_WIDTH, 1920);
    assert_eq!(SCREEN_HEIGHT, 1080);
    assert_eq!(STARTING_LIVES, 5);
    assert_ne!(GameMode::MainMenu, GameMode::Play);
    let updated: Updated<u8, u8> = Updated::Alive(1);
    assert!(matches!(updated, Updated::Alive(1)));
}
