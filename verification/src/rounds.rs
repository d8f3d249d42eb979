//! Rounds of the game: in each, enemies spawn one after the other, follow
//! the best route, and are shot at by the towers.

use crate::bullet::in_launch_range;
use crate::collisions::all_in_reach;
use crate::enemy::{
    all_wf, states, step_for, survivors, Enemy, EnemyState, FastEnemy, TestEnemy, FULL_HEALTH,
};
use crate::path::{polyline_length, Route, Web};
use crate::tower::{tower_updated, Tower};
use crate::vector::{Angle, Vector};
use crate::{Alive, SCREEN_HEIGHT, SCREEN_WIDTH, UNITS_PER_PIXEL};
use vstd::prelude::*;

verus! {

/// The number of the last round that can be played.
pub const LAST_ROUND: usize = 0x1000_0000;

/// The least roll of the dice for which a fast enemy spawns: three rolls in
/// ten, of all that a roll can be.
pub const FAST_ENEMY_ROLL: u32 = 3_006_477_107;

/// How a round stands.
pub struct RoundState {
    /// The number of enemies that have yet to spawn.
    pub enemies_left: int,
    /// The number of the round.
    pub round_number: int,
    /// The number of frames until the next enemy spawns.
    pub time_to_next_shot: int,
    /// The enemies that are on their way.
    pub enemies: Seq<EnemyState>,
}

/// The time between enemy spawns in a round.
pub open spec fn time_between(round_number: int) -> int {
    120int / (round_number + 1)
}

/// The number of enemies that spawn in a round.
pub open spec fn enemies_in(round_number: int) -> int {
    7 * round_number + 10
}

/// The enemy that spawns in a round on `route` for a roll of the dice: a
/// fast one for the higher three rolls in ten.
pub open spec fn spawned_enemy(round_number: int, route: Seq<Vector>, roll: u32) -> EnemyState {
    if roll < FAST_ENEMY_ROLL {
        EnemyState {
            fast: false,
            route,
            progress: 0,
            health: FULL_HEALTH as int,
            step: step_for(20 + 6 * round_number, polyline_length(route)),
        }
    } else {
        EnemyState {
            fast: true,
            route,
            progress: 0,
            health: FULL_HEALTH as int,
            step: step_for(22 + 7 * round_number, polyline_length(route)),
        }
    }
}

/// The round once the time to the next enemy has run down by a frame, and
/// the enemy has spawned on `route` if the time is up and enemies are left.
pub open spec fn with_spawn(before: RoundState, route: Seq<Vector>, roll: u32) -> RoundState {
    let time = if before.time_to_next_shot > 0 {
        before.time_to_next_shot - 1
    } else {
        0
    };
    if time == 0 && before.enemies_left > 0 {
        RoundState {
            enemies_left: before.enemies_left - 1,
            round_number: before.round_number,
            time_to_next_shot: time_between(before.round_number),
            enemies: before.enemies.push(spawned_enemy(before.round_number, route, roll)),
        }
    } else {
        RoundState { time_to_next_shot: time, ..before }
    }
}

/// Whether `stages` are the enemies that each tower in turn met: the first
/// tower `enemies`, each later tower those that the tower before it left, and
/// at the end the towers stand as `after`.
pub open spec fn towers_staged<B: Fn(Vector) -> Angle, A: Fn(Vector, Vector, Vector, u32) -> Vector>(
    before: Seq<Tower>,
    after: Seq<Tower>,
    enemies: Seq<EnemyState>,
    bounds: Vector,
    bearing_of: B,
    aim: A,
    stages: Seq<Seq<EnemyState>>,
) -> bool {
    &&& after.len() == before.len()
    &&& stages.len() == before.len() + 1
    &&& stages[0] == enemies
    &&& forall|i: int|
        0 <= i < before.len() ==> tower_updated(
            before[i],
            #[trigger] stages[i],
            bounds,
            bearing_of,
            aim,
            after[i],
            stages[i + 1],
        )
}

/// Whether `after` and `left` are how the towers stand, and the enemies that
/// are left, once each of them in turn has had a frame among the enemies that
/// the towers before it left of `enemies`.
pub open spec fn towers_updated<B: Fn(Vector) -> Angle, A: Fn(Vector, Vector, Vector, u32) -> Vector>(
    before: Seq<Tower>,
    after: Seq<Tower>,
    enemies: Seq<EnemyState>,
    bounds: Vector,
    bearing_of: B,
    aim: A,
    left: Seq<EnemyState>,
) -> bool {
    exists|stages: Seq<Seq<EnemyState>>| #[trigger]
        towers_staged(before, after, enemies, bounds, bearing_of, aim, stages)
            && stages[before.len() as int] == left
}

/// Whether every tower of `towers` is well-formed.
pub open spec fn all_towers_wf(towers: Seq<Tower>) -> bool {
    forall|i: int| 0 <= i < towers.len() ==> (#[trigger] towers[i]).wf()
}

/// The rectangle of the screen, in units.
pub open spec fn screen_bounds() -> Vector {
    Vector { x: 38_400, y: 21_600 }
}

/// Whether `after`, `towers_after` and `outcome` are how the round and the
/// towers stand, and the numbers of lives lost and of enemies killed, a frame
/// after they stood as `before` and `towers_before`, if the enemy that
/// spawned, if any, spawned on `route` for the roll `roll`.
pub open spec fn round_step<B: Fn(Vector) -> Angle, A: Fn(Vector, Vector, Vector, u32) -> Vector>(
    before: RoundState,
    towers_before: Seq<Tower>,
    route: Seq<Vector>,
    roll: u32,
    bearing_of: B,
    aim: A,
    after: RoundState,
    towers_after: Seq<Tower>,
    outcome: (usize, usize),
) -> bool {
    let spawned = with_spawn(before, route, roll);
    let moved = survivors(spawned.enemies, spawned.enemies.len() as int);
    &&& after.enemies_left == spawned.enemies_left
    &&& after.round_number == spawned.round_number
    &&& after.time_to_next_shot == spawned.time_to_next_shot
    &&& towers_after.len() == towers_before.len()
    &&& towers_updated(
        towers_before,
        towers_after,
        moved,
        screen_bounds(),
        bearing_of,
        aim,
        after.enemies,
    )
    &&& outcome.0 == spawned.enemies.len() - moved.len()
    &&& outcome.1 == moved.len() - after.enemies.len()
}

/// Rolls the dice: any number that fits in 32 bits, each as likely as any
/// other. Calls `rand::random`, of whose result nothing is known in advance.
#[verifier::external_body]
fn roll_dice() -> (roll: u32) {
    rand::random::<u32>()
}

/// Represents one round of the game
#[derive(Debug)]
pub struct Round {
    enemies_left: usize,
    round_number: usize,
    time_to_next_shot: usize,
    enemies: Vec<Enemy<Alive>>,
}

impl View for Round {
    type V = RoundState;

    closed spec fn view(&self) -> RoundState {
        RoundState {
            enemies_left: self.enemies_left as int,
            round_number: self.round_number as int,
            time_to_next_shot: self.time_to_next_shot as int,
            enemies: states(self.enemies@),
        }
    }
}

impl Round {
    /// The round is one that can be played, and its enemies are well-formed.
    pub closed spec fn wf(&self) -> bool {
        &&& self.round_number <= LAST_ROUND
        &&& all_wf(self.enemies@)
    }

    /// Constructs a round, configuring everything based on the round number
    pub fn new(round_number: usize) -> (round: Self)
        requires
            round_number <= LAST_ROUND,
        ensures
            round.wf(),
            round@ == (RoundState {
                enemies_left: enemies_in(round_number as int),
                round_number: round_number as int,
                time_to_next_shot: time_between(round_number as int),
                enemies: Seq::empty(),
            }),
    {
        let round = Self {
            enemies_left: 7 * round_number + 10,
            round_number,
            time_to_next_shot: Self::time_between_enemies(round_number),
            enemies: Vec::new(),
        };
        proof {
            assert(states(round.enemies@) =~= Seq::empty());
        }
        round
    }

    /// Increases the round number, updating all required variables
    pub fn next(&mut self)
        requires
            old(self)@.round_number < LAST_ROUND,
        ensures
            final(self).wf(),
            final(self)@ == (RoundState {
                enemies_left: enemies_in(old(self)@.round_number + 1),
                round_number: old(self)@.round_number + 1,
                time_to_next_shot: time_between(old(self)@.round_number + 1),
                enemies: Seq::empty(),
            }),
    {
        *self = Round::new(self.round_number + 1);
    }

    /// Calculates the time between enemy spawns based on the round number
    pub fn time_between_enemies(round_number: usize) -> (frames: usize)
        requires
            round_number < usize::MAX,
        ensures
            frames == time_between(round_number as int),
    {
        120 / (round_number + 1)
    }

    /// The number of the round.
    pub fn round_number(&self) -> (round_number: usize)
        ensures
            round_number == self@.round_number,
    {
        self.round_number
    }

    /// Updates enemies, bullets and towers, spawning enemies based on the
    /// round number, of a kind that the dice decide. Returns the number of
    /// lives lost and the number of enemies killed.
    /// `bearing_of` tells in which direction a displacement points; `aim`
    /// gives the velocity with which a projectile hits a moving target.
    pub fn update<B: Fn(Vector) -> Angle, A: Fn(Vector, Vector, Vector, u32) -> Vector>(
        &mut self,
        path: &Web,
        towers: &mut Vec<Tower>,
        bearing_of: &B,
        aim: &A,
    ) -> (outcome: (usize, usize))
        requires
            old(self).wf(),
            all_towers_wf(old(towers)@),
            path.wf(),
            path.best_route() is Some,
            path.start() != path.end(),
            all_in_reach(path.graph().positions),
            forall|v: Vector| bearing_of.requires((v,)),
            forall|from: Vector, to: Vector, moving: Vector, speed: u32|
                aim.requires((from, to, moving, speed)),
            forall|from: Vector, to: Vector, moving: Vector, speed: u32, velocity: Vector|
                aim.ensures((from, to, moving, speed), velocity) ==> in_launch_range(velocity),
        ensures
            final(self).wf(),
            all_towers_wf(final(towers)@),
            exists|roll: u32| #[trigger]
                round_step(
                    old(self)@,
                    old(towers)@,
                    path.route_positions(),
                    roll,
                    *bearing_of,
                    *aim,
                    final(self)@,
                    final(towers)@,
                    outcome,
                ),
    {
        let roll = roll_dice();
        let outcome = self.update_with(path, towers, bearing_of, aim, roll);
        proof {
            assert(round_step(
                old(self)@,
                old(towers)@,
                path.route_positions(),
                roll,
                *bearing_of,
                *aim,
                self@,
                towers@,
                outcome,
            ));
        }
        outcome
    }

    /// Updates enemies, bullets and towers as `update` does, but for the
    /// dice: `roll` decides of which kind an enemy is that spawns.
    pub fn update_with<B: Fn(Vector) -> Angle, A: Fn(Vector, Vector, Vector, u32) -> Vector>(
        &mut self,
        path: &Web,
        towers: &mut Vec<Tower>,
        bearing_of: &B,
        aim: &A,
        roll: u32,
    ) -> (outcome: (usize, usize))
        requires
            old(self).wf(),
            all_towers_wf(old(towers)@),
            path.wf(),
            path.best_route() is Some,
            path.start() != path.end(),
            all_in_reach(path.graph().positions),
            forall|v: Vector| bearing_of.requires((v,)),
            forall|from: Vector, to: Vector, moving: Vector, speed: u32|
                aim.requires((from, to, moving, speed)),
            forall|from: Vector, to: Vector, moving: Vector, speed: u32, velocity: Vector|
                aim.ensures((from, to, moving, speed), velocity) ==> in_launch_range(velocity),
        ensures
            final(self).wf(),
            all_towers_wf(final(towers)@),
            round_step(
                old(self)@,
                old(towers)@,
                path.route_positions(),
                roll,
                *bearing_of,
                *aim,
                final(self)@,
                final(towers)@,
                outcome,
            ),
    {
        self.time_to_next_shot = if self.time_to_next_shot > 0 {
            self.time_to_next_shot - 1
        } else {
            0
        };
        if self.time_to_next_shot == 0 {
            self.spawn_enemy(path, roll);
        }
        let ghost spawned = self@;
        let initial_enemies = self.enemies.len();
        let mut walking: Vec<Enemy<Alive>> = Vec::new();
        core::mem::swap(&mut walking, &mut self.enemies);
        let mut enemies = Enemy::update_all(walking);
        let enemies_after_movement = enemies.len();
        let ghost moved = states(enemies@);
        let bounds = Vector {
            x: SCREEN_WIDTH as i32 * UNITS_PER_PIXEL,
            y: SCREEN_HEIGHT as i32 * UNITS_PER_PIXEL,
        };
        proof {
            lemma_survivors_fewer(spawned.enemies, spawned.enemies.len() as int);
        }
        let count = towers.len();
        let ghost mut stages: Seq<Seq<EnemyState>> = seq![moved];
        let mut i: usize = 0;
        while i < count
            invariant
                i <= count,
                count == towers@.len(),
                towers@.len() == old(towers)@.len(),
                bounds == screen_bounds(),
                all_wf(enemies@),
                all_towers_wf(towers@),
                forall|k: int| i <= k < count ==> towers@[k] == old(towers)@[k],
                forall|v: Vector| bearing_of.requires((v,)),
                forall|from: Vector, to: Vector, moving: Vector, speed: u32|
                    aim.requires((from, to, moving, speed)),
                forall|from: Vector, to: Vector, moving: Vector, speed: u32, velocity: Vector|
                    aim.ensures((from, to, moving, speed), velocity) ==> in_launch_range(velocity),
                states(enemies@).len() <= moved.len(),
                stages.len() == i + 1,
                stages[0] == moved,
                stages[i as int] == states(enemies@),
                forall|k: int|
                    0 <= k < i ==> tower_updated(
                        old(towers)@[k],
                        #[trigger] stages[k],
                        bounds,
                        *bearing_of,
                        *aim,
                        towers@[k],
                        stages[k + 1],
                    ),
            decreases count - i,
        {
            let ghost met = states(enemies@);
            let ghost stood = towers@;
            let ghost staged = stages;
            assert(towers@[i as int].wf());
            let left = towers[i].update(enemies, bounds, bearing_of, aim);
            enemies = left;
            proof {
                stages = staged.push(states(enemies@));
                crate::tower::lemma_tower_leaves_fewer(
                    old(towers)@[i as int],
                    met,
                    bounds,
                    *bearing_of,
                    *aim,
                    towers@[i as int],
                    states(enemies@),
                );
                assert forall|k: int| 0 <= k < towers@.len() implies (#[trigger] towers@[k]).wf() by {
                    if k != i {
                        assert(stood[k].wf());
                    }
                }
                assert forall|k: int| 0 <= k < i + 1 implies tower_updated(
                    old(towers)@[k],
                    #[trigger] stages[k],
                    bounds,
                    *bearing_of,
                    *aim,
                    towers@[k],
                    stages[k + 1],
                ) by {
                    if k < i {
                        assert(stages[k] == staged[k]);
                        assert(stages[k + 1] == staged[k + 1]);
                        assert(towers@[k] == stood[k]);
                        assert(tower_updated(
                            old(towers)@[k],
                            staged[k],
                            bounds,
                            *bearing_of,
                            *aim,
                            stood[k],
                            staged[k + 1],
                        ));
                    }
                }
            }
            i += 1;
        }
        proof {
            assert(towers_staged(old(towers)@, towers@, moved, bounds, *bearing_of, *aim, stages)
                && stages[old(towers)@.len() as int] == states(enemies@));
        }
        let enemies_after_shooting = enemies.len();
        self.enemies = enemies;
        let lives_lost = initial_enemies - enemies_after_movement;
        let enemies_killed = enemies_after_movement - enemies_after_shooting;
        (lives_lost, enemies_killed)
    }

    /// Gets the living enemies in this round
    pub fn enemies(&self) -> (enemies: &Vec<Enemy<Alive>>)
        ensures
            states(enemies@) == self@.enemies,
            self.wf() ==> all_wf(enemies@),
    {
        &self.enemies
    }

    /// Checks if this round is over
    pub fn complete(&self) -> (over: bool)
        ensures
            over == (self@.enemies_left == 0 && self@.enemies.len() == 0),
    {
        self.enemies_left == 0 && self.enemies.len() == 0
    }

    /// Spawns an enemy at the start of the best route, if any is left to
    /// spawn.
    fn spawn_enemy(&mut self, path: &Web, roll: u32)
        requires
            old(self).wf(),
            old(self).time_to_next_shot == 0,
            path.wf(),
            path.best_route() is Some,
            path.start() != path.end(),
            all_in_reach(path.graph().positions),
        ensures
            final(self).wf(),
            final(self)@ == with_spawn(old(self)@, path.route_positions(), roll),
    {
        if self.enemies_left == 0 {
            return ;
        }
        let positions = path.route();
        proof {
            path.lemma_route_positions();
        }
        let route = Route::from_positions_unchecked(positions);
        let round_number = self.round_number;
        let ghost had = self.enemies@;
        let enemy = if roll < FAST_ENEMY_ROLL {
            TestEnemy::spawn(route, round_number)
        } else {
            FastEnemy::spawn(route, round_number)
        };
        self.enemies.push(enemy);
        self.enemies_left -= 1;
        self.time_to_next_shot = Self::time_between_enemies(self.round_number);
        proof {
            assert(states(self.enemies@) =~= states(had).push(enemy@));
            assert forall|i: int| 0 <= i < self.enemies@.len() implies (
            #[trigger] self.enemies@[i]).wf() by {
                if i < had.len() {
                    assert(had[i].wf());
                }
            }
        }
    }
}

/// No more enemies survive than there were.
pub proof fn lemma_survivors_fewer(enemies: Seq<EnemyState>, count: int)
    requires
        0 <= count,
    ensures
        survivors(enemies, count).len() <= count,
    decreases count,
{
    if count > 0 {
        lemma_survivors_fewer(enemies, count - 1);
    }
}

} // verus!
