//! The core of a tower defence game on the integer grid: the web of
//! waypoints and the search for the cheapest route across it, the routes that
//! enemies follow, and the collision tests between points, lines, circles and
//! sectors.

pub mod bullet;
pub mod collisions;
pub mod enemy;
pub mod files;
pub mod game;
pub mod graph;
pub mod numeric;
pub mod path;
pub mod pathfind;
pub mod rounds;
pub mod tower;
pub mod vector;

use vstd::prelude::*;

verus! {

/// The number of grid units in a pixel.
pub const UNITS_PER_PIXEL: i32 = 20;

/// The width of the canvas which will be drawn to, in pixels.
pub const SCREEN_WIDTH: usize = 1920;

/// The height of the canvas which will be drawn to, in pixels.
pub const SCREEN_HEIGHT: usize = 1080;

/// The number of lives that the player will start the game with.
pub const STARTING_LIVES: usize = 5;

/// Used as a marker for the compiler to show that something is still
/// "usable", e.g. an enemy is alive, or a bullet is still moving.
#[derive(Debug, Clone, Copy)]
pub struct Alive;

/// Used as a marker for the compiler to show that something is unusable and
/// should be destroyed, e.g. an enemy has been killed, or a bullet has hit
/// its target.
#[derive(Debug, Clone, Copy)]
pub struct Dead;

/// Used to wrap the result of updating something which can be `Dead` or
/// `Alive`, so that when something is updated, the old value can no longer be
/// used, and the state of the new value (alive or dead) must be considered.
#[derive(Debug)]
pub enum Updated<AliveType, DeadType> {
    Alive(AliveType),
    Dead(DeadType),
}

/// Used to represent which "screen" the user is currently interacting with.
#[derive(Debug, Clone, Copy, PartialEq, Eq, Structural)]
pub enum GameMode {
    /// The main menu
    MainMenu,
    /// The main game
    Play,
}

/// Attempts to call `callback` multiple times until it returns
/// `Result::Ok(O)`, or the maximum number of attempts (`tries`) has been
/// reached. Returns the first `Ok` value, if there was one.
pub fn multi_try<I: Clone, O, E, F: Fn(I) -> Result<O, E>>(
    callback: F,
    input: I,
    tries: usize,
) -> (first: Option<O>)
    requires
        forall|given: I| callback.requires((given,)),
    ensures
        first matches Some(value) ==> tries > 0 && exists|given: I|
            cloned(input, given) && callback.ensures((given,), Ok::<O, E>(value)),
        first is None ==> tries == 0 || exists|given: I, error: E|
            cloned(input, given) && callback.ensures((given,), Err::<O, E>(error)),
{
    let mut attempt: usize = 0;
    while attempt < tries
        invariant
            attempt <= tries,
            forall|given: I| callback.requires((given,)),
            attempt > 0 ==> exists|given: I, error: E|
                cloned(input, given) && callback.ensures((given,), Err::<O, E>(error)),
        decreases tries - attempt,
    {
        let given = input.clone();
        let ghost handed = given;
        match callback(given) {
            Ok(value) => {
                assert(cloned(input, handed) && callback.ensures((handed,), Ok::<O, E>(value)));
                return Some(value);
            },
            Err(error) => {
                assert(cloned(input, handed) && callback.ensures((handed,), Err::<O, E>(error)));
            },
        }
        attempt += 1;
    }
    None
}

} // verus!
