//! Enemies, which follow a route from its first point to its last.
//!
//! Progress along the route and health are counted in millionths. Lengths
//! are counted in grid units, of which a pixel holds
//! [`UNITS_PER_PIXEL`](crate::UNITS_PER_PIXEL).

use crate::collisions::{all_in_reach, in_reach, line_circle_collision, LineCircleCollision};
use crate::path::{on_route, point_at, polyline_length, travelled, Route, FULL_PROGRESS};
use crate::vector::{boxed, sqr_distance, Vector};
use crate::{Alive, Dead, Updated};
use core::marker::PhantomData;
use vstd::prelude::*;

verus! {

/// The health of an enemy that has not been hit.
pub const FULL_HEALTH: u32 = 1_000_000;

/// The progress that an enemy makes in a frame at `speed` on a route of
/// length `length`: the whole route where it is no longer than the speed.
pub open spec fn step_for(speed: int, length: int) -> int {
    if length <= 0 || speed >= length {
        FULL_PROGRESS as int
    } else {
        (speed * FULL_PROGRESS) / length
    }
}

/// How an enemy stands.
pub struct EnemyState {
    /// Whether the enemy is of the fast kind.
    pub fast: bool,
    /// The points of the route that the enemy follows.
    pub route: Seq<Vector>,
    /// How far along the route the enemy has come.
    pub progress: int,
    /// How much health the enemy has left.
    pub health: int,
    /// The progress that the enemy makes in a frame.
    pub step: int,
}

impl EnemyState {
    /// The route has two points at least, all near enough to the origin for
    /// collision tests, and progress, health and step are in range.
    pub open spec fn wf(self) -> bool {
        &&& self.route.len() >= 2
        &&& all_in_reach(self.route)
        &&& 0 <= self.progress <= FULL_PROGRESS
        &&& 0 <= self.health <= FULL_HEALTH
        &&& 0 <= self.step <= FULL_PROGRESS
    }

    /// The radius of the enemy.
    pub open spec fn radius(self) -> int {
        if self.fast {
            500
        } else {
            300
        }
    }

    /// The health that a hit of strength `dmg` takes from the enemy.
    pub open spec fn harm(self, dmg: int) -> int {
        if self.fast {
            (dmg * 10) / 13
        } else {
            dmg
        }
    }

    /// The enemy a frame later.
    pub open spec fn advanced(self) -> EnemyState {
        EnemyState {
            progress: if self.progress + self.step >= FULL_PROGRESS {
                FULL_PROGRESS as int
            } else {
                self.progress + self.step
            },
            ..self
        }
    }

    /// The enemy after a hit of strength `dmg`.
    pub open spec fn hurt(self, dmg: int) -> EnemyState {
        EnemyState {
            health: if self.health <= self.harm(dmg) {
                0
            } else {
                self.health - self.harm(dmg)
            },
            ..self
        }
    }

    /// The place on the route at `progress`.
    pub open spec fn place(self, progress: int) -> Vector {
        point_at(self.route, travelled(polyline_length(self.route), progress))
    }

    /// Where the enemy stands.
    pub open spec fn position(self) -> Vector {
        self.place(self.progress)
    }

    /// How far the enemy moves in a frame.
    pub open spec fn velocity(self) -> Vector {
        Vector {
            x: (self.place(self.progress + self.step).x - self.position().x) as i32,
            y: (self.place(self.progress + self.step).y - self.position().y) as i32,
        }
    }

    /// Whether the enemy has lost all its health or reached the end of its
    /// route.
    pub open spec fn dead(self) -> bool {
        self.health <= 0 || self.progress >= FULL_PROGRESS
    }

    /// Whether the enemy touches the circle round `position`.
    pub open spec fn collides(self, position: Vector, radius: int) -> bool {
        sqr_distance(self.position(), position) <= (radius + self.radius()) * (radius
            + self.radius())
    }
}

/// A point on a route whose points are all in reach is in reach.
pub proof fn lemma_on_route_in_reach(points: Seq<Vector>, p: Vector)
    requires
        all_in_reach(points),
        on_route(points, p),
    ensures
        in_reach(p),
{
    let k = choose|k: int| 0 <= k < points.len() - 1 && boxed(#[trigger] points[k], points[k + 1], p);
    assert(in_reach(points[k]));
    assert(in_reach(points[k + 1]));
}

/// Computes the progress that an enemy makes in a frame at `speed` on a
/// route of length `length`.
fn progress_increment(speed: u128, length: u128) -> (step: i64)
    requires
        speed <= 0x10_0000_0000_0000_0000,
    ensures
        step == step_for(speed as int, length as int),
        0 <= step <= FULL_PROGRESS,
{
    if length == 0 || speed >= length {
        FULL_PROGRESS
    } else {
        proof {
            assert(0 <= speed * 1_000_000 < length * 1_000_000 && speed * 1_000_000
                <= 0x10_0000_0000_0000_0000 * 1_000_000) by (nonlinear_arith)
                requires
                    0 <= speed < length,
                    speed <= 0x10_0000_0000_0000_0000,
            ;
            vstd::arithmetic::div_mod::lemma_div_is_ordered(
                speed * 1_000_000,
                length * 1_000_000,
                length as int,
            );
            vstd::arithmetic::div_mod::lemma_div_is_ordered(0, speed * 1_000_000, length as int);
            vstd::arithmetic::div_mod::lemma_div_multiples_vanish(1_000_000, length as int);
            assert(0int / (length as int) == 0);
        }
        ((speed * 1_000_000) / length) as i64
    }
}

/// What the two kinds of enemy have in common.
pub trait EnemyTrait: Sized {
    /// How the enemy stands.
    spec fn state(&self) -> EnemyState;

    /// The enemy's route and numbers fit together.
    spec fn wf(&self) -> bool;

    /// A well-formed enemy stands in a well-formed state.
    proof fn lemma_wf(&self)
        requires
            self.wf(),
        ensures
            self.state().wf(),
    ;

    /// Update the enemy (move it one frame forward).
    /// Return true if the enemy is still alive.
    fn update(&mut self) -> (alive: bool)
        requires
            old(self).wf(),
        ensures
            final(self).wf(),
            final(self).state() == old(self).state().advanced(),
            alive == (final(self).state().progress < FULL_PROGRESS),
    ;

    /// Get the health of the enemy, in millionths.
    fn health(&self) -> (health: u32)
        requires
            self.wf(),
        ensures
            health == self.state().health,
    ;

    /// Get the progress along the route, in millionths.
    fn progress(&self) -> (progress: i64)
        requires
            self.wf(),
        ensures
            progress == self.state().progress,
    ;

    /// Is the enemy dead? should it be updated?
    fn dead(&self) -> (dead: bool)
        requires
            self.wf(),
        ensures
            dead == self.state().dead(),
    {
        self.health() == 0 || self.progress() >= FULL_PROGRESS
    }

    /// The radius of the enemy.
    fn radius(&self) -> (radius: u32)
        requires
            self.wf(),
        ensures
            radius == self.state().radius(),
    ;

    /// Damage the enemy. Return true if the enemy is still alive.
    fn damage(&mut self, dmg: u32) -> (alive: bool)
        requires
            old(self).wf(),
        ensures
            final(self).wf(),
            final(self).state() == old(self).state().hurt(dmg as int),
            alive == (final(self).state().health > 0),
    ;

    /// Get the route this enemy is following.
    fn route(&self) -> (route: &Route)
        requires
            self.wf(),
        ensures
            route.wf(),
            route@ == self.state().route,
    ;

    /// Get the position of the enemy.
    fn position(&self) -> (position: Vector)
        requires
            self.wf(),
        ensures
            position == self.state().position(),
            in_reach(position),
    {
        proof {
            self.lemma_wf();
        }
        let position = self.route().get_position(self.progress());
        proof {
            lemma_on_route_in_reach(self.state().route, position);
        }
        position
    }

    /// Get the velocity of the enemy.
    fn velocity(&self) -> (velocity: Vector)
        requires
            self.wf(),
        ensures
            velocity == self.state().velocity(),
    ;

    /// Check if this collides with another circle.
    fn collides(&self, position: Vector, radius: u32) -> (hit: bool)
        requires
            self.wf(),
        ensures
            hit == self.state().collides(position, radius as int),
    {
        let here = self.position();
        let own = self.radius();
        proof {
            self.lemma_wf();
        }
        let reach: i128 = radius as i128 + own as i128;
        let dx: i128 = here.x as i128 - position.x as i128;
        let dy: i128 = here.y as i128 - position.y as i128;
        proof {
            crate::numeric::lemma_mul_bounds(dx as int, dx as int, 0xffff_ffff, 0xffff_ffff);
            crate::numeric::lemma_mul_bounds(dy as int, dy as int, 0xffff_ffff, 0xffff_ffff);
            crate::numeric::lemma_mul_bounds(
                reach as int,
                reach as int,
                0x2_0000_0000,
                0x2_0000_0000,
            );
        }
        dx * dx + dy * dy <= reach * reach
    }
}

/// A simple enemy.
#[derive(Debug)]
pub struct TestEnemy {
    path: Route,
    progress: i64,
    health: u32,
    progress_increment: i64,
}

/// A harder-to-beat enemy.
#[derive(Debug, Clone)]
pub struct FastEnemy {
    path: Route,
    progress: i64,
    health: u32,
    progress_increment: i64,
}

/// Moves `progress` one frame forward.
fn advance(progress: i64, step: i64) -> (next: i64)
    requires
        0 <= progress <= FULL_PROGRESS,
        0 <= step <= FULL_PROGRESS,
    ensures
        next == if progress + step >= FULL_PROGRESS {
            FULL_PROGRESS as int
        } else {
            progress + step
        },
{
    if progress + step >= FULL_PROGRESS {
        FULL_PROGRESS
    } else {
        progress + step
    }
}

/// Computes how far an enemy moves in a frame.
fn step_along(path: &Route, progress: i64, step: i64) -> (velocity: Vector)
    requires
        path.wf(),
        all_in_reach(path@),
        0 <= progress <= FULL_PROGRESS,
        0 <= step <= FULL_PROGRESS,
    ensures
        velocity.x == point_at(path@, travelled(polyline_length(path@), progress + step)).x
            - point_at(path@, travelled(polyline_length(path@), progress as int)).x,
        velocity.y == point_at(path@, travelled(polyline_length(path@), progress + step)).y
            - point_at(path@, travelled(polyline_length(path@), progress as int)).y,
{
    let next = path.get_position(progress + step);
    let here = path.get_position(progress);
    proof {
        lemma_on_route_in_reach(path@, next);
        lemma_on_route_in_reach(path@, here);
    }
    Vector { x: next.x - here.x, y: next.y - here.y }
}

/// See docs for `EnemyTrait`
impl EnemyTrait for TestEnemy {
    closed spec fn state(&self) -> EnemyState {
        EnemyState {
            fast: false,
            route: self.path@,
            progress: self.progress as int,
            health: self.health as int,
            step: self.progress_increment as int,
        }
    }

    closed spec fn wf(&self) -> bool {
        self.path.wf() && self.state().wf()
    }

    proof fn lemma_wf(&self) {
    }

    fn update(&mut self) -> (alive: bool) {
        self.progress = advance(self.progress, self.progress_increment);
        self.progress < FULL_PROGRESS
    }

    fn health(&self) -> (health: u32) {
        self.health
    }

    fn progress(&self) -> (progress: i64) {
        self.progress
    }

    fn radius(&self) -> (radius: u32) {
        300
    }

    fn damage(&mut self, dmg: u32) -> (alive: bool) {
        self.health = if self.health <= dmg {
            0
        } else {
            self.health - dmg
        };
        self.health > 0
    }

    fn route(&self) -> (route: &Route) {
        &self.path
    }

    fn velocity(&self) -> (velocity: Vector) {
        step_along(&self.path, self.progress, self.progress_increment)
    }
}

impl EnemyTrait for FastEnemy {
    closed spec fn state(&self) -> EnemyState {
        EnemyState {
            fast: true,
            route: self.path@,
            progress: self.progress as int,
            health: self.health as int,
            step: self.progress_increment as int,
        }
    }

    closed spec fn wf(&self) -> bool {
        self.path.wf() && self.state().wf()
    }

    proof fn lemma_wf(&self) {
    }

    fn update(&mut self) -> (alive: bool) {
        self.progress = advance(self.progress, self.progress_increment);
        self.progress < FULL_PROGRESS
    }

    fn health(&self) -> (health: u32) {
        self.health
    }

    fn progress(&self) -> (progress: i64) {
        self.progress
    }

    fn radius(&self) -> (radius: u32) {
        500
    }

    fn damage(&mut self, dmg: u32) -> (alive: bool) {
        // the 13 here gives the enemy 1.3 times as much
        // health as `TestEnemy`
        let harm: u64 = (dmg as u64 * 10) / 13;
        self.health = if self.health as u64 <= harm {
            0
        } else {
            (self.health as u64 - harm) as u32
        };
        self.health > 0
    }

    fn route(&self) -> (route: &Route) {
        &self.path
    }

    fn velocity(&self) -> (velocity: Vector) {
        step_along(&self.path, self.progress, self.progress_increment)
    }
}

impl TestEnemy {
    /// Spawn an enemy on a path. It moves a pixel in a frame, and three
    /// tenths of a pixel more for each round.
    pub fn spawn(path: Route, round_number: usize) -> (enemy: Enemy<Alive>)
        requires
            path.wf(),
            all_in_reach(path@),
        ensures
            enemy.wf(),
            enemy@ == (EnemyState {
                fast: false,
                route: path@,
                progress: 0,
                health: FULL_HEALTH as int,
                step: step_for(20 + 6 * round_number, polyline_length(path@)),
            }),
    {
        let speed: u128 = 20 + 6 * (round_number as u128);
        let length = path.length();
        proof {
            path.lemma_wf();
        }
        Enemy {
            enemy: EnemyKind::Test(
                Self {
                    path,
                    progress: 0,
                    health: FULL_HEALTH,
                    progress_increment: progress_increment(speed, length),
                },
            ),
            state: PhantomData,
        }
    }
}

impl FastEnemy {
    /// Spawn an enemy on a path. It moves eleven tenths of a pixel in a
    /// frame, and seven twentieths of a pixel more for each round.
    pub fn spawn(route: Route, round_number: usize) -> (enemy: Enemy<Alive>)
        requires
            route.wf(),
            all_in_reach(route@),
        ensures
            enemy.wf(),
            enemy@ == (EnemyState {
                fast: true,
                route: route@,
                progress: 0,
                health: FULL_HEALTH as int,
                step: step_for(22 + 7 * round_number, polyline_length(route@)),
            }),
    {
        let speed: u128 = 22 + 7 * (round_number as u128);
        let length = route.length();
        proof {
            route.lemma_wf();
        }
        Enemy {
            enemy: EnemyKind::Fast(
                Self {
                    path: route,
                    progress: 0,
                    health: FULL_HEALTH,
                    progress_increment: progress_increment(speed, length),
                },
            ),
            state: PhantomData,
        }
    }
}

/// An enemy of either kind.
#[derive(Debug)]
pub enum EnemyKind {
    Test(TestEnemy),
    Fast(FastEnemy),
}

impl EnemyKind {
    /// How the enemy stands.
    pub open spec fn state(&self) -> EnemyState {
        match self {
            EnemyKind::Test(enemy) => enemy.state(),
            EnemyKind::Fast(enemy) => enemy.state(),
        }
    }

    /// The enemy's route and numbers fit together.
    pub open spec fn wf(&self) -> bool {
        match self {
            EnemyKind::Test(enemy) => enemy.wf(),
            EnemyKind::Fast(enemy) => enemy.wf(),
        }
    }
}

/// Represents an enemy with a fixed state `State`, either `Alive` or `Dead`.
#[derive(Debug)]
pub struct Enemy<State> {
    enemy: EnemyKind,
    state: PhantomData<State>,
}

impl<State> View for Enemy<State> {
    type V = EnemyState;

    closed spec fn view(&self) -> EnemyState {
        self.enemy.state()
    }
}

impl<State> Enemy<State> {
    /// The enemy's route and numbers fit together.
    pub closed spec fn wf(&self) -> bool {
        self.enemy.wf()
    }

    /// A well-formed enemy stands in a well-formed state.
    pub proof fn lemma_wf(&self)
        requires
            self.wf(),
        ensures
            self@.wf(),
    {
        match &self.enemy {
            EnemyKind::Test(enemy) => enemy.lemma_wf(),
            EnemyKind::Fast(enemy) => enemy.lemma_wf(),
        }
    }

    /// The enemy of either kind.
    pub fn kind(&self) -> (kind: &EnemyKind)
        ensures
            kind.state() == self@,
            kind.wf() == self.wf(),
    {
        &self.enemy
    }

    /// The enemy of either kind, without its state.
    pub fn into_kind(self) -> (kind: EnemyKind)
        ensures
            kind.state() == self@,
            kind.wf() == self.wf(),
    {
        self.enemy
    }

    /// Get the health of the enemy, in millionths.
    pub fn health(&self) -> (health: u32)
        requires
            self.wf(),
        ensures
            health == self@.health,
    {
        match &self.enemy {
            EnemyKind::Test(enemy) => enemy.health(),
            EnemyKind::Fast(enemy) => enemy.health(),
        }
    }

    /// The radius of the enemy.
    pub fn radius(&self) -> (radius: u32)
        requires
            self.wf(),
        ensures
            radius == self@.radius(),
    {
        match &self.enemy {
            EnemyKind::Test(enemy) => enemy.radius(),
            EnemyKind::Fast(enemy) => enemy.radius(),
        }
    }

    /// Returns the position of the enemy.
    pub fn position(&self) -> (position: Vector)
        requires
            self.wf(),
        ensures
            position == self@.position(),
            in_reach(position),
    {
        match &self.enemy {
            EnemyKind::Test(enemy) => enemy.position(),
            EnemyKind::Fast(enemy) => enemy.position(),
        }
    }
}

/// These methods only exist for living enemies
impl Enemy<Alive> {
    /// Constructs a new enemy. New enemies are always alive.
    pub fn new(enemy: EnemyKind) -> (made: Enemy<Alive>)
        ensures
            made@ == enemy.state(),
            made.wf() == enemy.wf(),
    {
        Enemy { enemy, state: PhantomData }
    }

    /// Updates a list of enemies, consuming the list. The enemies that are
    /// still alive come back in the opposite order.
    pub fn update_all(enemies: Vec<Enemy<Alive>>) -> (new_enemies: Vec<Enemy<Alive>>)
        requires
            all_wf(enemies@),
        ensures
            all_wf(new_enemies@),
            states(new_enemies@) == survivors(states(enemies@), enemies@.len() as int),
    {
        let mut enemies = enemies;
        let ghost before = enemies@;
        let mut new_enemies: Vec<Enemy<Alive>> = Vec::with_capacity(enemies.len());
        while enemies.len() > 0
            invariant
                enemies@.len() <= before.len(),
                enemies@ == before.subrange(0, enemies@.len() as int),
                all_wf(before),
                all_wf(new_enemies@),
                survivors(states(before), before.len() as int) == states(new_enemies@)
                    + survivors(states(before), enemies@.len() as int),
            decreases enemies@.len(),
        {
            let ghost count = enemies@.len() as int;
            let ghost kept = new_enemies@;
            let enemy = enemies.pop().unwrap();
            proof {
                assert(enemy == before[count - 1]);
                assert(enemy.wf());
                assert(states(before)[count - 1] == enemy@);
            }
            let updated = enemy.update();
            match updated {
                Updated::Alive(enemy) => {
                    new_enemies.push(enemy);
                    proof {
                        assert(states(new_enemies@) =~= states(kept).push(enemy@));
                        assert(states(new_enemies@) + survivors(states(before), count - 1)
                            =~= states(kept) + survivors(states(before), count));
                    }
                },
                Updated::Dead(_) => {},
            }
            proof {
                assert(enemies@ =~= before.subrange(0, count - 1));
                assert forall|i: int| 0 <= i < new_enemies@.len() implies (
                #[trigger] new_enemies@[i]).wf() by {
                    if i < kept.len() {
                        assert(kept[i].wf());
                    }
                }
            }
        }
        proof {
            assert(survivors(states(before), 0) =~= Seq::empty());
            assert(states(new_enemies@) + Seq::empty() =~= states(new_enemies@));
        }
        new_enemies
    }

    /// Updates an enemy.
    pub fn update(self) -> (updated: Updated<Enemy<Alive>, Enemy<Dead>>)
        requires
            self.wf(),
        ensures
            match updated {
                Updated::Alive(enemy) => enemy.wf() && enemy@ == self@.advanced()
                    && enemy@.progress < FULL_PROGRESS,
                Updated::Dead(enemy) => enemy.wf() && enemy@ == self@.advanced()
                    && enemy@.progress >= FULL_PROGRESS,
            },
    {
        let mut kind = self.enemy;
        let alive = match &mut kind {
            EnemyKind::Test(enemy) => enemy.update(),
            EnemyKind::Fast(enemy) => enemy.update(),
        };
        if alive {
            Updated::Alive(Enemy::new(kind))
        } else {
            Updated::Dead(Enemy { enemy: kind, state: PhantomData })
        }
    }

    /// Checks if an enemy collides with a circle.
    pub fn collides(&self, position: Vector, radius: u32) -> (hit: bool)
        requires
            self.wf(),
        ensures
            hit == self@.collides(position, radius as int),
    {
        match &self.enemy {
            EnemyKind::Test(enemy) => enemy.collides(position, radius),
            EnemyKind::Fast(enemy) => enemy.collides(position, radius),
        }
    }

    /// Returns the velocity of the enemy (units/frame).
    pub fn velocity(&self) -> (velocity: Vector)
        requires
            self.wf(),
        ensures
            velocity == self@.velocity(),
    {
        match &self.enemy {
            EnemyKind::Test(enemy) => enemy.velocity(),
            EnemyKind::Fast(enemy) => enemy.velocity(),
        }
    }

    /// Damages an enemy.
    pub fn damage(self, dmg: u32) -> (updated: Updated<Enemy<Alive>, Enemy<Dead>>)
        requires
            self.wf(),
        ensures
            match updated {
                Updated::Alive(enemy) => enemy.wf() && enemy@ == self@.hurt(dmg as int)
                    && enemy@.health > 0,
                Updated::Dead(enemy) => enemy.wf() && enemy@ == self@.hurt(dmg as int)
                    && enemy@.health == 0,
            },
    {
        let mut kind = self.enemy;
        let alive = match &mut kind {
            EnemyKind::Test(enemy) => enemy.damage(dmg),
            EnemyKind::Fast(enemy) => enemy.damage(dmg),
        };
        proof {
            match &kind {
                EnemyKind::Test(enemy) => enemy.lemma_wf(),
                EnemyKind::Fast(enemy) => enemy.lemma_wf(),
            }
        }
        if alive {
            Updated::Alive(Enemy::new(kind))
        } else {
            Updated::Dead(Enemy { enemy: kind, state: PhantomData })
        }
    }

    /// Checks if this enemy intersects with a line segment between points
    /// `a` and `b`.
    pub fn line_collision(&self, a: Vector, b: Vector) -> (hit: bool)
        requires
            self.wf(),
            in_reach(a),
            in_reach(b),
        ensures
            hit == (crate::collisions::line_circle_points(
                self@.position(),
                self@.radius() as u32,
                a,
                b,
            ).len() > 0),
    {
        let hit = line_circle_collision(self.position(), self.radius(), a, b);
        match hit {
            LineCircleCollision::Zero => false,
            _ => true,
        }
    }
}

/// Whether every enemy of `enemies` is well-formed.
pub open spec fn all_wf<State>(enemies: Seq<Enemy<State>>) -> bool {
    forall|i: int| 0 <= i < enemies.len() ==> (#[trigger] enemies[i]).wf()
}

/// How each of `enemies` stands.
pub open spec fn states<State>(enemies: Seq<Enemy<State>>) -> Seq<EnemyState> {
    Seq::new(enemies.len(), |i: int| enemies[i]@)
}

/// The first `count` of `enemies` a frame later, as far as they have not
/// reached the end of their route, the last first.
pub open spec fn survivors(enemies: Seq<EnemyState>, count: int) -> Seq<EnemyState>
    decreases count,
{
    if count <= 0 {
        Seq::empty()
    } else {
        let moved = enemies[count - 1].advanced();
        if moved.progress < FULL_PROGRESS {
            seq![moved] + survivors(enemies, count - 1)
        } else {
            survivors(enemies, count - 1)
        }
    }
}

} // verus!
