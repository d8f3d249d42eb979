//! Bullets, which towers shoot at enemies.

use crate::collisions::{in_reach, line_circle_points};
use crate::enemy::{all_wf, states, Enemy, EnemyState};
use crate::numeric::{div_floor, lemma_mul_bounds};
use crate::vector::Vector;
use crate::{Alive, Dead, Updated};
use core::marker::PhantomData;
use vstd::prelude::*;

verus! {

/// The number of frames for which lightning lasts.
pub const LIGHTNING_LIFESPAN: usize = 30;

/// The health that lightning takes from an enemy in a frame.
pub const LIGHTNING_DAMAGE: u32 = 200_000;

/// How far lightning reaches: as far as the screen is wide from corner to
/// corner.
pub const LIGHTNING_REACH: i32 = 44_058;

/// The health that a projectile takes from the enemy that it hits.
pub const PROJECTILE_DAMAGE: u32 = 400_000;

/// The radius of a projectile.
pub const PROJECTILE_RADIUS: u32 = 100;

/// The speed of a projectile, in units a frame.
pub const PROJECTILE_SPEED: u32 = 60;

/// The largest size of a coordinate of the place from which a bullet is
/// shot, and of the velocity of a bullet.
pub const LAUNCH_LIMIT: i32 = 100_000;

/// Whether `p` is near enough to the origin for a bullet to be shot from it.
pub open spec fn in_launch_range(p: Vector) -> bool {
    &&& -LAUNCH_LIMIT <= p.x <= LAUNCH_LIMIT
    &&& -LAUNCH_LIMIT <= p.y <= LAUNCH_LIMIT
}

/// The enemies of `list` that a hit of strength `dmg` leaves alive, of those
/// that `struck` marks, and all others; in the opposite order.
pub open spec fn after_hits(
    list: Seq<EnemyState>,
    count: int,
    struck: spec_fn(int) -> bool,
    dmg: int,
) -> Seq<EnemyState>
    decreases count,
{
    if count <= 0 {
        Seq::empty()
    } else {
        let last = list[count - 1];
        let rest = after_hits(list, count - 1, struck, dmg);
        if !struck(count - 1) {
            seq![last] + rest
        } else if last.hurt(dmg).health > 0 {
            seq![last.hurt(dmg)] + rest
        } else {
            rest
        }
    }
}

/// The last of the first `count` enemies of `list` that touches the circle
/// round `position`; none where it is `-1`.
pub open spec fn last_touching(list: Seq<EnemyState>, count: int, position: Vector, radius: int) -> int
    decreases count,
{
    if count <= 0 {
        -1
    } else if list[count - 1].collides(position, radius) {
        count - 1
    } else {
        last_touching(list, count - 1, position, radius)
    }
}

/// Whether the line segment from `a` to `b` meets the enemy.
pub open spec fn line_meets(enemy: EnemyState, a: Vector, b: Vector) -> bool {
    line_circle_points(enemy.position(), enemy.radius() as u32, a, b).len() > 0
}

/// The end of the ray from `start` in the direction `direction`, which is
/// `reach` long; `start` where the direction has no length.
pub open spec fn ray_end(start: Vector, direction: Vector, reach: int) -> Vector {
    let length = direction.spec_length();
    if length == 0 {
        start
    } else {
        Vector {
            x: (start.x + (direction.x * reach) / length) as i32,
            y: (start.y + (direction.y * reach) / length) as i32,
        }
    }
}

/// No coordinate of a vector is longer than the vector.
pub proof fn lemma_coordinates_within_length(v: Vector)
    ensures
        -v.spec_length() <= v.x <= v.spec_length(),
        -v.spec_length() <= v.y <= v.spec_length(),
{
    let x = v.x as int;
    let y = v.y as int;
    let ax = crate::numeric::abs(x);
    let ay = crate::numeric::abs(y);
    assert(ax * ax == x * x) by (nonlinear_arith)
        requires
            ax == x || ax == -x,
    ;
    assert(ay * ay == y * y) by (nonlinear_arith)
        requires
            ay == y || ay == -y,
    ;
    assert(x * x >= 0) by (nonlinear_arith);
    assert(y * y >= 0) by (nonlinear_arith);
    crate::numeric::lemma_int_sqrt_of_square(ax);
    crate::numeric::lemma_int_sqrt_of_square(ay);
    crate::numeric::lemma_int_sqrt_monotone(ax * ax, v.spec_sqr_length());
    crate::numeric::lemma_int_sqrt_monotone(ay * ay, v.spec_sqr_length());
}

/// A part of a length, scaled to `reach`, is no longer than `reach`.
proof fn lemma_scaled_within_reach(part: int, length: int, reach: int)
    requires
        length > 0,
        reach >= 0,
        -length <= part <= length,
    ensures
        -reach <= (part * reach) / length <= reach,
{
    assert(-(length * reach) <= part * reach <= length * reach) by (nonlinear_arith)
        requires
            -length <= part <= length,
            reach >= 0,
    ;
    vstd::arithmetic::div_mod::lemma_div_is_ordered(-(length * reach), part * reach, length);
    vstd::arithmetic::div_mod::lemma_div_is_ordered(part * reach, length * reach, length);
    vstd::arithmetic::div_mod::lemma_div_multiples_vanish(reach, length);
    vstd::arithmetic::div_mod::lemma_div_multiples_vanish(-reach, length);
    assert(-(length * reach) == length * (-reach)) by (nonlinear_arith);
}

/// Computes the end of the ray from `start` in the direction `direction`,
/// which is as long as lightning reaches.
fn end_of_ray(start: Vector, direction: Vector) -> (end: Vector)
    requires
        in_launch_range(start),
    ensures
        end == ray_end(start, direction, LIGHTNING_REACH as int),
        in_reach(end),
{
    let length = direction.length();
    if length == 0 {
        start
    } else {
        proof {
            lemma_coordinates_within_length(direction);
            lemma_scaled_within_reach(direction.x as int, length as int, LIGHTNING_REACH as int);
            lemma_scaled_within_reach(direction.y as int, length as int, LIGHTNING_REACH as int);
            lemma_mul_bounds(direction.x as int, LIGHTNING_REACH as int, 0x8000_0000, 44_058);
            lemma_mul_bounds(direction.y as int, LIGHTNING_REACH as int, 0x8000_0000, 44_058);
        }
        let x = start.x as i128 + div_floor(
            direction.x as i128 * LIGHTNING_REACH as i128,
            length as i128,
        );
        let y = start.y as i128 + div_floor(
            direction.y as i128 * LIGHTNING_REACH as i128,
            length as i128,
        );
        Vector { x: x as i32, y: y as i32 }
    }
}

/// Whether a circle round `position` lies wholly outside the rectangle from
/// the origin to `bounds`.
pub open spec fn out_of_bounds(position: Vector, radius: int, bounds: Vector) -> bool {
    ||| position.x + radius < 0
    ||| position.y + radius < 0
    ||| position.x - radius > bounds.x
    ||| position.y - radius > bounds.y
}

/// How a bullet stands.
pub enum BulletState {
    /// A projectile at `position`, which moves by `velocity` in a frame.
    Projectile { position: Vector, velocity: Vector },
    /// Lightning from `start` in the direction `direction`, which lasts for
    /// `life` more frames.
    Lightning { start: Vector, direction: Vector, life: int },
}

impl BulletState {
    /// The bullet is near enough to the origin, and slow enough, for
    /// collision tests.
    pub open spec fn wf(self) -> bool {
        match self {
            BulletState::Projectile { position, velocity } => in_launch_range(position)
                && in_launch_range(velocity),
            BulletState::Lightning { start, direction, life } => in_launch_range(start) && 0
                <= life <= LIGHTNING_LIFESPAN,
        }
    }

    /// The bullet a frame later.
    pub open spec fn advanced(self) -> BulletState {
        match self {
            BulletState::Projectile { position, velocity } => BulletState::Projectile {
                position: Vector {
                    x: (position.x + velocity.x) as i32,
                    y: (position.y + velocity.y) as i32,
                },
                velocity,
            },
            BulletState::Lightning { start, direction, life } => BulletState::Lightning {
                start,
                direction,
                life: if life > 0 {
                    life - 1
                } else {
                    life
                },
            },
        }
    }

    /// Whether the bullet lasts for another frame among `enemies`, within
    /// `bounds`: lightning for as long as it has life left, a projectile
    /// until it hits an enemy or leaves the bounds.
    pub open spec fn lasts(self, enemies: Seq<EnemyState>, bounds: Vector) -> bool {
        match self {
            BulletState::Projectile { position, velocity } => {
                let moved = self.advanced()->Projectile_position;
                last_touching(enemies, enemies.len() as int, moved, PROJECTILE_RADIUS as int) < 0
                    && !out_of_bounds(moved, PROJECTILE_RADIUS as int, bounds)
            },
            BulletState::Lightning { start, direction, life } => life > 0,
        }
    }

    /// The enemies that are left of `enemies` once the bullet has moved for
    /// a frame: the last enemy that the projectile touches is hit;
    /// every enemy that the lightning meets is hit, for as long as it has
    /// life left. But for lightning without life, the enemies come in the
    /// opposite order.
    pub open spec fn leaves(self, enemies: Seq<EnemyState>) -> Seq<EnemyState> {
        match self {
            BulletState::Projectile { position, velocity } => {
                let moved = self.advanced()->Projectile_position;
                let hit = last_touching(
                    enemies,
                    enemies.len() as int,
                    moved,
                    PROJECTILE_RADIUS as int,
                );
                after_hits(
                    enemies,
                    enemies.len() as int,
                    |i: int| i == hit,
                    PROJECTILE_DAMAGE as int,
                )
            },
            BulletState::Lightning { start, direction, life } => {
                if life > 0 {
                    let end = ray_end(start, direction, LIGHTNING_REACH as int);
                    after_hits(
                        enemies,
                        enemies.len() as int,
                        |i: int| line_meets(enemies[i], start, end),
                        LIGHTNING_DAMAGE as int,
                    )
                } else {
                    enemies
                }
            },
        }
    }
}

/// A hit leaves no more enemies than there were.
pub proof fn lemma_after_hits_fewer(
    list: Seq<EnemyState>,
    count: int,
    struck: spec_fn(int) -> bool,
    dmg: int,
)
    requires
        0 <= count,
    ensures
        after_hits(list, count, struck, dmg).len() <= count,
    decreases count,
{
    if count > 0 {
        lemma_after_hits_fewer(list, count - 1, struck, dmg);
    }
}

/// A bullet leaves no more enemies than there were.
pub proof fn lemma_leaves_fewer(bullet: BulletState, enemies: Seq<EnemyState>)
    ensures
        bullet.leaves(enemies).len() <= enemies.len(),
{
    match bullet {
        BulletState::Projectile { position, velocity } => {
            let moved = bullet.advanced()->Projectile_position;
            let hit = last_touching(enemies, enemies.len() as int, moved, PROJECTILE_RADIUS as int);
            lemma_after_hits_fewer(
                enemies,
                enemies.len() as int,
                |i: int| i == hit,
                PROJECTILE_DAMAGE as int,
            );
        },
        BulletState::Lightning { start, direction, life } => {
            let end = ray_end(start, direction, LIGHTNING_REACH as int);
            lemma_after_hits_fewer(
                enemies,
                enemies.len() as int,
                |i: int| line_meets(enemies[i], start, end),
                LIGHTNING_DAMAGE as int,
            );
        },
    }
}

/// Bullets leave no more enemies than there were.
pub proof fn lemma_enemies_after_fewer(
    bullets: Seq<BulletState>,
    count: int,
    enemies: Seq<EnemyState>,
)
    ensures
        enemies_after(bullets, count, enemies).len() <= enemies.len(),
    decreases bullets.len() - count,
{
    if count < bullets.len() {
        lemma_enemies_after_fewer(bullets, count + 1, enemies);
        lemma_leaves_fewer(bullets[count], enemies_after(bullets, count + 1, enemies));
    }
}

/// What the two kinds of bullet have in common.
pub trait BulletTrait: Sized {
    /// How the bullet stands.
    spec fn state(&self) -> BulletState;

    /// Updates this bullet. Returns whether it lasts, and the enemies that
    /// it leaves.
    fn update(&mut self, enemies: Vec<Enemy<Alive>>, bounds: Vector) -> (updated: (
        bool,
        Vec<Enemy<Alive>>,
    ))
        requires
            old(self).state().wf(),
            all_wf(enemies@),
            0 <= bounds.x <= LAUNCH_LIMIT - 1_000,
            0 <= bounds.y <= LAUNCH_LIMIT - 1_000,
        ensures
            final(self).state() == old(self).state().advanced(),
            updated.0 == old(self).state().lasts(states(enemies@), bounds),
            updated.0 ==> final(self).state().wf(),
            all_wf(updated.1@),
            states(updated.1@) == old(self).state().leaves(states(enemies@)),
    ;
}

/// a slow-moving, circular `BulletTrait`
#[derive(Debug, Clone)]
pub struct Projectile {
    position: Vector,
    velocity: Vector,
    radius: u32,
}

/// a very fast moving, line-shaped `BulletTrait`
#[derive(Debug, Clone)]
pub struct Lightning {
    start: Vector,
    direction: Vector,
    life: usize,
}

impl Projectile {
    /// Construct a new projectile at `position`, which moves by `velocity`
    /// in a frame.
    pub fn spawn(position: Vector, velocity: Vector) -> (bullet: BulletKind)
        requires
            in_launch_range(position),
            in_launch_range(velocity),
        ensures
            bullet.state() == (BulletState::Projectile { position, velocity }),
            bullet.state().wf(),
    {
        BulletKind::Projectile(Self { position, velocity, radius: PROJECTILE_RADIUS })
    }

    /// Where the projectile is.
    pub fn position(&self) -> (position: Vector)
        ensures
            position == self.state()->Projectile_position,
    {
        self.position
    }

    /// The radius of the projectile.
    pub fn radius(&self) -> (radius: u32)
        ensures
            self.well_sized() ==> radius == PROJECTILE_RADIUS,
    {
        self.radius
    }

    /// Whether the projectile has the radius of a projectile.
    pub closed spec fn well_sized(&self) -> bool {
        self.radius == PROJECTILE_RADIUS
    }
}

impl Lightning {
    /// Construct new lightning from `position` toward `target`.
    pub fn spawn(position: Vector, target: Vector) -> (bullet: BulletKind)
        requires
            in_launch_range(position),
            in_reach(target),
        ensures
            bullet.state() == (BulletState::Lightning {
                start: position,
                direction: Vector {
                    x: (target.x - position.x) as i32,
                    y: (target.y - position.y) as i32,
                },
                life: LIGHTNING_LIFESPAN as int,
            }),
            bullet.state().wf(),
    {
        BulletKind::Lightning(
            Self {
                start: position,
                direction: Vector { x: target.x - position.x, y: target.y - position.y },
                life: LIGHTNING_LIFESPAN,
            },
        )
    }

    /// Where the lightning starts.
    pub fn start(&self) -> (start: Vector)
        ensures
            start == self.state()->Lightning_start,
    {
        self.start
    }

    /// Where the lightning ends.
    pub fn end(&self) -> (end: Vector)
        requires
            self.state().wf(),
        ensures
            end == ray_end(
                self.state()->Lightning_start,
                self.state()->Lightning_direction,
                LIGHTNING_REACH as int,
            ),
    {
        end_of_ray(self.start, self.direction)
    }
}

/// Hits each of `enemies` that `struck` marks, and gives back those that are
/// left, in the opposite order.
fn hit_enemies(enemies: Vec<Enemy<Alive>>, struck: &Vec<bool>, dmg: u32) -> (left: Vec<
    Enemy<Alive>,
>)
    requires
        all_wf(enemies@),
        struck@.len() == enemies@.len(),
    ensures
        all_wf(left@),
        states(left@) == after_hits(
            states(enemies@),
            enemies@.len() as int,
            |i: int| 0 <= i < struck@.len() && struck@[i],
            dmg as int,
        ),
{
    let mut enemies = enemies;
    let ghost before = enemies@;
    let ghost marks = |i: int| 0 <= i < struck@.len() && struck@[i];
    let mut new_enemies: Vec<Enemy<Alive>> = Vec::with_capacity(enemies.len());
    while enemies.len() > 0
        invariant
            enemies@.len() <= before.len(),
            struck@.len() == before.len(),
            enemies@ == before.subrange(0, enemies@.len() as int),
            all_wf(before),
            all_wf(new_enemies@),
            marks == (|i: int| 0 <= i < struck@.len() && struck@[i]),
            after_hits(states(before), before.len() as int, marks, dmg as int) == states(
                new_enemies@,
            ) + after_hits(states(before), enemies@.len() as int, marks, dmg as int),
        decreases enemies@.len(),
    {
        let ghost count = enemies@.len() as int;
        let ghost kept = new_enemies@;
        let enemy = enemies.pop().unwrap();
        proof {
            assert(enemy == before[count - 1]);
            assert(enemy.wf());
            assert(states(before)[count - 1] == enemy@);
            assert(marks(count - 1) == struck@[count - 1]);
        }
        if struck[enemies.len()] {
            match enemy.damage(dmg) {
                Updated::Alive(enemy) => {
                    new_enemies.push(enemy);
                    proof {
                        assert(states(new_enemies@) =~= states(kept).push(enemy@));
                        assert(states(new_enemies@) + after_hits(
                            states(before),
                            count - 1,
                            marks,
                            dmg as int,
                        ) =~= states(kept) + after_hits(states(before), count, marks, dmg as int));
                    }
                },
                Updated::Dead(_) => {},
            }
        } else {
            let ghost state = enemy@;
            new_enemies.push(enemy);
            proof {
                assert(states(new_enemies@) =~= states(kept).push(state));
                assert(states(new_enemies@) + after_hits(
                    states(before),
                    count - 1,
                    marks,
                    dmg as int,
                ) =~= states(kept) + after_hits(states(before), count, marks, dmg as int));
            }
        }
        proof {
            assert(enemies@ =~= before.subrange(0, count - 1));
            assert forall|i: int| 0 <= i < new_enemies@.len() implies (
            #[trigger] new_enemies@[i]).wf() by {
                if i < kept.len() {
                    assert(kept[i].wf());
                }
            }
        }
    }
    proof {
        assert(after_hits(states(before), 0, marks, dmg as int) =~= Seq::empty());
        assert(states(new_enemies@) + Seq::empty() =~= states(new_enemies@));
    }
    new_enemies
}

/// Which enemies are hit does not depend on how that is told, only on which
/// are told.
proof fn lemma_after_hits_same(
    list: Seq<EnemyState>,
    count: int,
    first: spec_fn(int) -> bool,
    second: spec_fn(int) -> bool,
    dmg: int,
)
    requires
        count <= list.len(),
        forall|i: int| 0 <= i < count ==> #[trigger] first(i) == second(i),
    ensures
        after_hits(list, count, first, dmg) == after_hits(list, count, second, dmg),
    decreases count,
{
    if count > 0 {
        lemma_after_hits_same(list, count - 1, first, second, dmg);
    }
}

impl BulletTrait for Projectile {
    closed spec fn state(&self) -> BulletState {
        BulletState::Projectile { position: self.position, velocity: self.velocity }
    }

    /// Update the bullet
    fn update(&mut self, enemies: Vec<Enemy<Alive>>, bounds: Vector) -> (updated: (
        bool,
        Vec<Enemy<Alive>>,
    )) {
        self.position = Vector {
            x: self.position.x + self.velocity.x,
            y: self.position.y + self.velocity.y,
        };
        let position = self.position;
        let mut struck: Vec<bool> = Vec::with_capacity(enemies.len());
        let mut hit: Option<usize> = None;
        let mut i: usize = 0;
        while i < enemies.len()
            invariant
                i <= enemies@.len(),
                all_wf(enemies@),
                struck@.len() == i,
                forall|k: int| 0 <= k < i ==> !#[trigger] struck@[k],
                last_touching(states(enemies@), i as int, position, PROJECTILE_RADIUS as int)
                    == match hit {
                    Some(at) => at as int,
                    None => -1,
                },
            decreases enemies@.len() - i,
        {
            assert(enemies@[i as int].wf());
            assert(states(enemies@)[i as int] == enemies@[i as int]@);
            if enemies[i].collides(position, PROJECTILE_RADIUS) {
                hit = Some(i);
            }
            struck.push(false);
            i += 1;
        }
        let mut alive = true;
        if let Some(at) = hit {
            proof {
                lemma_last_touching_bounds(
                    states(enemies@),
                    enemies@.len() as int,
                    position,
                    PROJECTILE_RADIUS as int,
                );
            }
            struck[at] = true;
            alive = false;
        }
        let ghost list = states(enemies@);
        let ghost count = enemies@.len() as int;
        let ghost at = last_touching(list, count, position, PROJECTILE_RADIUS as int);
        proof {
            assert forall|i: int| 0 <= i < count implies struck@[i] == (i == at) by {}
        }
        let new_enemies = hit_enemies(enemies, &struck, PROJECTILE_DAMAGE);
        proof {
            lemma_after_hits_same(
                list,
                count,
                |i: int| 0 <= i < struck@.len() && struck@[i],
                |i: int| i == at,
                PROJECTILE_DAMAGE as int,
            );
        }
        let radius: i32 = PROJECTILE_RADIUS as i32;
        if !alive || position.x + radius < 0 || position.y + radius < 0 || position.x - radius
            > bounds.x || position.y - radius > bounds.y {
            (false, new_enemies)
        } else {
            (true, new_enemies)
        }
    }
}

/// The last enemy that touches a circle is one of the enemies.
proof fn lemma_last_touching_bounds(list: Seq<EnemyState>, count: int, position: Vector, radius: int)
    requires
        0 <= count <= list.len(),
    ensures
        -1 <= last_touching(list, count, position, radius) < count,
    decreases count,
{
    if count > 0 && !list[count - 1].collides(position, radius) {
        lemma_last_touching_bounds(list, count - 1, position, radius);
    }
}

impl BulletTrait for Lightning {
    closed spec fn state(&self) -> BulletState {
        BulletState::Lightning {
            start: self.start,
            direction: self.direction,
            life: self.life as int,
        }
    }

    /// Update the bullet
    fn update(&mut self, enemies: Vec<Enemy<Alive>>, bounds: Vector) -> (updated: (
        bool,
        Vec<Enemy<Alive>>,
    )) {
        if self.life == 0 {
            return (false, enemies);
        }
        self.life -= 1;
        let start = self.start;
        let end = end_of_ray(self.start, self.direction);
        let mut struck: Vec<bool> = Vec::with_capacity(enemies.len());
        let mut i: usize = 0;
        while i < enemies.len()
            invariant
                i <= enemies@.len(),
                all_wf(enemies@),
                in_launch_range(start),
                in_reach(end),
                struck@.len() == i,
                forall|k: int|
                    0 <= k < i ==> #[trigger] struck@[k] == line_meets(
                        states(enemies@)[k],
                        start,
                        end,
                    ),
            decreases enemies@.len() - i,
        {
            assert(enemies@[i as int].wf());
            assert(states(enemies@)[i as int] == enemies@[i as int]@);
            proof {
                enemies@[i as int].lemma_wf();
            }
            struck.push(enemies[i].line_collision(start, end));
            i += 1;
        }
        let ghost list = states(enemies@);
        let ghost count = enemies@.len() as int;
        let new_enemies = hit_enemies(enemies, &struck, LIGHTNING_DAMAGE);
        proof {
            lemma_after_hits_same(
                list,
                count,
                |i: int| 0 <= i < struck@.len() && struck@[i],
                |i: int| line_meets(list[i], start, end),
                LIGHTNING_DAMAGE as int,
            );
        }
        (true, new_enemies)
    }
}

/// A bullet of either kind.
#[derive(Debug)]
pub enum BulletKind {
    Projectile(Projectile),
    Lightning(Lightning),
}

impl BulletKind {
    /// How the bullet stands.
    pub open spec fn state(&self) -> BulletState {
        match self {
            BulletKind::Projectile(bullet) => bullet.state(),
            BulletKind::Lightning(bullet) => bullet.state(),
        }
    }
}

/// Represents a bullet which must be in the state `State` (either `Alive` or
/// `Dead`); this is proven at compile-time.
#[derive(Debug)]
pub struct Bullet<State> {
    bullet: BulletKind,
    state: PhantomData<State>,
}

impl<State> View for Bullet<State> {
    type V = BulletState;

    closed spec fn view(&self) -> BulletState {
        self.bullet.state()
    }
}

impl<State> Bullet<State> {
    /// The bullet of either kind.
    pub fn kind(&self) -> (kind: &BulletKind)
        ensures
            kind.state() == self@,
    {
        &self.bullet
    }
}

/// Whether every bullet of `bullets` is well-formed.
pub open spec fn all_bullets_wf<State>(bullets: Seq<Bullet<State>>) -> bool {
    forall|i: int| 0 <= i < bullets.len() ==> (#[trigger] bullets[i])@.wf()
}

/// How each of `bullets` stands.
pub open spec fn bullet_states<State>(bullets: Seq<Bullet<State>>) -> Seq<BulletState> {
    Seq::new(bullets.len(), |i: int| bullets[i]@)
}

/// The enemies that the first `count` of `bullets` leave of `enemies`, the
/// last bullet moving first.
pub open spec fn enemies_after(bullets: Seq<BulletState>, count: int, enemies: Seq<EnemyState>) -> Seq<
    EnemyState,
>
    decreases bullets.len() - count,
{
    if count >= bullets.len() {
        enemies
    } else {
        bullets[count].leaves(enemies_after(bullets, count + 1, enemies))
    }
}

/// The bullets that last of the first `count` of `bullets`, the last first,
/// among `enemies`, on which the bullets after them have worked already.
pub open spec fn bullets_after(
    bullets: Seq<BulletState>,
    count: int,
    enemies: Seq<EnemyState>,
    bounds: Vector,
) -> Seq<BulletState>
    decreases count,
{
    if count <= 0 {
        Seq::empty()
    } else {
        let bullet = bullets[count - 1];
        let met = enemies_after(bullets, count, enemies);
        let rest = bullets_after(bullets, count - 1, enemies, bounds);
        if bullet.lasts(met, bounds) {
            seq![bullet.advanced()] + rest
        } else {
            rest
        }
    }
}

/// These methods only exist for bullets which are alive, as dead bullets
/// can't be constructed or used for anything.
impl Bullet<Alive> {
    /// Constructs a new bullet. New bullets are guaranteed to be alive.
    pub fn new(bullet: BulletKind) -> (made: Bullet<Alive>)
        ensures
            made@ == bullet.state(),
    {
        Bullet { bullet, state: PhantomData }
    }

    /// Update the bullet. Dead bullets should not be updated.
    pub fn update(self, enemies: Vec<Enemy<Alive>>, bounds: Vector) -> (updated: (
        Updated<Bullet<Alive>, Bullet<Dead>>,
        Vec<Enemy<Alive>>,
    ))
        requires
            self@.wf(),
            all_wf(enemies@),
            0 <= bounds.x <= LAUNCH_LIMIT - 1_000,
            0 <= bounds.y <= LAUNCH_LIMIT - 1_000,
        ensures
            match updated.0 {
                Updated::Alive(bullet) => self@.lasts(states(enemies@), bounds) && bullet@
                    == self@.advanced() && bullet@.wf(),
                Updated::Dead(bullet) => !self@.lasts(states(enemies@), bounds) && bullet@
                    == self@.advanced(),
            },
            all_wf(updated.1@),
            states(updated.1@) == self@.leaves(states(enemies@)),
    {
        let mut kind = self.bullet;
        let (alive, new_enemies) = match &mut kind {
            BulletKind::Projectile(bullet) => bullet.update(enemies, bounds),
            BulletKind::Lightning(bullet) => bullet.update(enemies, bounds),
        };
        if alive {
            (Updated::Alive(Bullet::new(kind)), new_enemies)
        } else {
            (Updated::Dead(Bullet { bullet: kind, state: PhantomData }), new_enemies)
        }
    }

    /// Update a list of living bullets, consuming the list. The last bullet
    /// moves first; the bullets that last come back in the opposite order.
    pub fn update_all(
        bullets: Vec<Bullet<Alive>>,
        enemies: Vec<Enemy<Alive>>,
        bounds: Vector,
    ) -> (updated: (Vec<Bullet<Alive>>, Vec<Enemy<Alive>>))
        requires
            all_bullets_wf(bullets@),
            all_wf(enemies@),
            0 <= bounds.x <= LAUNCH_LIMIT - 1_000,
            0 <= bounds.y <= LAUNCH_LIMIT - 1_000,
        ensures
            all_bullets_wf(updated.0@),
            all_wf(updated.1@),
            bullet_states(updated.0@) == bullets_after(
                bullet_states(bullets@),
                bullets@.len() as int,
                states(enemies@),
                bounds,
            ),
            states(updated.1@) == enemies_after(bullet_states(bullets@), 0, states(enemies@)),
    {
        let mut bullets = bullets;
        let ghost before = bullets@;
        let ghost all = bullet_states(before);
        let ghost met = states(enemies@);
        let mut new_bullets: Vec<Bullet<Alive>> = Vec::with_capacity(bullets.len());
        let mut new_enemies = enemies;
        while bullets.len() > 0
            invariant
                bullets@.len() <= before.len(),
                bullets@ == before.subrange(0, bullets@.len() as int),
                all == bullet_states(before),
                all_bullets_wf(before),
                all_bullets_wf(new_bullets@),
                all_wf(new_enemies@),
                0 <= bounds.x <= LAUNCH_LIMIT - 1_000,
                0 <= bounds.y <= LAUNCH_LIMIT - 1_000,
                states(new_enemies@) == enemies_after(all, bullets@.len() as int, met),
                bullets_after(all, before.len() as int, met, bounds) == bullet_states(
                    new_bullets@,
                ) + bullets_after(all, bullets@.len() as int, met, bounds),
            decreases bullets@.len(),
        {
            let ghost count = bullets@.len() as int;
            let ghost kept = new_bullets@;
            let bullet = bullets.pop().unwrap();
            proof {
                assert(bullet == before[count - 1]);
                assert(before[count - 1]@.wf());
                assert(all[count - 1] == bullet@);
            }
            let (updated, newer_enemies) = bullet.update(new_enemies, bounds);
            match updated {
                Updated::Alive(bullet) => {
                    new_bullets.push(bullet);
                    proof {
                        assert(bullet_states(new_bullets@) =~= bullet_states(kept).push(bullet@));
                        assert(bullet_states(new_bullets@) + bullets_after(
                            all,
                            count - 1,
                            met,
                            bounds,
                        ) =~= bullet_states(kept) + bullets_after(all, count, met, bounds));
                    }
                },
                Updated::Dead(_) => {},
            }
            new_enemies = newer_enemies;
            proof {
                assert(bullets@ =~= before.subrange(0, count - 1));
                assert forall|i: int| 0 <= i < new_bullets@.len() implies (
                #[trigger] new_bullets@[i])@.wf() by {
                    if i < kept.len() {
                        assert(kept[i]@.wf());
                    }
                }
            }
        }
        proof {
            assert(bullets_after(all, 0, met, bounds) =~= Seq::empty());
            assert(bullet_states(new_bullets@) + Seq::empty() =~= bullet_states(new_bullets@));
        }
        (new_bullets, new_enemies)
    }
}

} // verus!
