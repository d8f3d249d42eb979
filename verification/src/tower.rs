//! Towers, which shoot at the enemies that they see, and the ranges in which
//! they see them.

use crate::bullet::{
    all_bullets_wf, bullet_states, bullets_after, enemies_after, in_launch_range, Bullet,
    BulletState, Lightning, Projectile, LAUNCH_LIMIT, LIGHTNING_LIFESPAN, PROJECTILE_SPEED,
};
use crate::collisions::{
    in_reach, in_view, line_circle_collision, line_circle_points, line_sector_collision,
    within_view, LineCircleCollision, RADIUS_LIMIT,
};
use crate::enemy::{all_wf, states, Enemy, EnemyState};
use crate::numeric::abs;
use crate::vector::{
    distance, distance_between, is_angle_delta, Angle, Vector, FULL_TURN, HALF_TURN,
};
use crate::Alive;
use vstd::prelude::*;

verus! {

/// The signed shortest angle from `theta1` to `theta2`: what is left of the
/// size of their difference after whole turns are taken off, counted the
/// other way round where that is more than half a turn, with the sign of the
/// difference. Where exactly half a turn is left, both ways round are as
/// short, and the angle is half a turn, not its opposite.
pub open spec fn shortest_angle(theta1: int, theta2: int) -> int {
    let delta = theta2 - theta1;
    let turned = abs(delta) % (FULL_TURN as int);
    let short = if turned > HALF_TURN {
        turned - FULL_TURN
    } else {
        turned
    };
    if delta >= 0 || turned == HALF_TURN {
        short
    } else {
        -short
    }
}

/// The shortest angle differs from the difference of the two angles by whole
/// turns, and lies between half a turn one way, which it does not reach, and
/// half a turn the other way, which it may reach.
pub proof fn lemma_shortest_angle_is_delta(theta1: int, theta2: int)
    ensures
        is_angle_delta(theta1, theta2, shortest_angle(theta1, theta2)),
        -HALF_TURN < shortest_angle(theta1, theta2) <= HALF_TURN,
{
    let full = FULL_TURN as int;
    let delta = theta2 - theta1;
    let size = abs(delta);
    let turns = size / full;
    let turned = size % full;
    vstd::arithmetic::div_mod::lemma_fundamental_div_mod(size, full);
    vstd::arithmetic::div_mod::lemma_mod_bound(size, full);
    let result = shortest_angle(theta1, theta2);
    let whole = if delta >= 0 {
        if turned > HALF_TURN {
            -turns - 1
        } else {
            -turns
        }
    } else {
        if turned >= HALF_TURN {
            turns + 1
        } else {
            turns
        }
    };
    assert(result - delta == full * whole) by (nonlinear_arith)
        requires
            size == full * turns + turned,
            size == if delta >= 0 {
                delta
            } else {
                -delta
            },
            full == 1_296_000,
            result == if delta >= 0 {
                if turned > 648_000 {
                    turned - full
                } else {
                    turned
                }
            } else {
                if turned >= 648_000 {
                    full - turned
                } else {
                    -turned
                }
            },
            whole == if delta >= 0 {
                if turned > 648_000 {
                    -turns - 1
                } else {
                    -turns
                }
            } else {
                if turned >= 648_000 {
                    turns + 1
                } else {
                    turns
                }
            },
    ;
    vstd::arithmetic::div_mod::lemma_mod_multiples_basic(whole, full);
    assert(whole * full == full * whole) by (nonlinear_arith);
}

/// The shortest angle from one direction to another is the opposite of the
/// shortest angle back, unless the directions lie half a turn apart: then it
/// is half a turn both ways.
pub proof fn lemma_shortest_angle_turns_back(theta1: int, theta2: int)
    ensures
        shortest_angle(theta1, theta2) != HALF_TURN ==> shortest_angle(theta2, theta1)
            == -shortest_angle(theta1, theta2),
        shortest_angle(theta1, theta2) == HALF_TURN ==> shortest_angle(theta2, theta1)
            == HALF_TURN,
{
    assert(abs(theta1 - theta2) == abs(theta2 - theta1));
    if theta1 == theta2 {
        assert(0int % (FULL_TURN as int) == 0);
    }
}

/// Returns the signed shortest angle between two angles.
pub fn shortest_angle_distance(theta1: Angle, theta2: Angle) -> (distance: Angle)
    ensures
        distance == shortest_angle(theta1 as int, theta2 as int),
        is_angle_delta(theta1 as int, theta2 as int, distance as int),
        -HALF_TURN < distance <= HALF_TURN,
{
    proof {
        lemma_shortest_angle_is_delta(theta1 as int, theta2 as int);
    }
    let full: i128 = FULL_TURN as i128;
    let half: i128 = HALF_TURN as i128;
    let delta: i128 = theta2 as i128 - theta1 as i128;
    let size: i128 = if delta >= 0 {
        delta
    } else {
        -delta
    };
    let turned: i128 = size % full;
    let short: i128 = if turned > half {
        turned - full
    } else {
        turned
    };
    if delta >= 0 || turned == half {
        short as i64
    } else {
        (-short) as i64
    }
}

/// The length of the line segment from `a` to `b` that a range sees, from
/// the points in which the segment meets the range: the distance between
/// them where they are two, nothing where they are fewer.
pub open spec fn seen_length(points: Seq<Vector>) -> int {
    if points.len() == 2 {
        distance(points[0], points[1])
    } else {
        0
    }
}

/// The first of the first `count` enemies of `list` that touches the circle
/// round `position`, counted from `from`; none where it is `-1`.
pub open spec fn first_touching(
    list: Seq<EnemyState>,
    from: int,
    position: Vector,
    radius: int,
) -> int
    decreases list.len() - from,
{
    if from >= list.len() {
        -1
    } else if list[from].collides(position, radius) {
        from
    } else {
        first_touching(list, from + 1, position, radius)
    }
}

/// Represents a circular range
#[derive(Debug)]
pub struct CircularRange {
    position: Vector,
    radius: u32,
}

/// Represents a range in the shape of a sector
#[derive(Debug)]
pub struct SectorRange {
    position: Vector,
    radius: u32,
    /// The direction in which this sector faces
    direction: Angle,
    /// The field of view (an angle) of this range
    fov: Angle,
}

impl CircularRange {
    /// The centre of the range.
    pub closed spec fn spec_position(&self) -> Vector {
        self.position
    }

    /// The radius of the range.
    pub closed spec fn spec_radius(&self) -> u32 {
        self.radius
    }

    /// The range is near enough to the origin, and small enough, for
    /// collision tests.
    pub open spec fn wf(&self) -> bool {
        in_launch_range(self.spec_position()) && self.spec_radius() <= RADIUS_LIMIT
    }

    /// Constructs a range round `position`.
    pub fn new(position: Vector, radius: u32) -> (range: Self)
        ensures
            range.spec_position() == position,
            range.spec_radius() == radius,
    {
        Self { position, radius }
    }

    /// The centre of the range.
    pub fn position(&self) -> (position: Vector)
        ensures
            position == self.spec_position(),
    {
        self.position
    }

    /// The radius of the range.
    pub fn radius(&self) -> (radius: u32)
        ensures
            radius == self.spec_radius(),
    {
        self.radius
    }

    /// Choose an enemy which this range can see, to shoot at: the first that
    /// touches the range.
    pub fn get_target<'b>(&self, enemies: &'b Vec<Enemy<Alive>>) -> (target: Option<
        &'b Enemy<Alive>,
    >)
        requires
            all_wf(enemies@),
        ensures
            match target {
                Some(enemy) => {
                    let found = first_touching(
                        states(enemies@),
                        0,
                        self.spec_position(),
                        self.spec_radius() as int,
                    );
                    0 <= found < enemies@.len() && *enemy == enemies@[found]
                },
                None => first_touching(
                    states(enemies@),
                    0,
                    self.spec_position(),
                    self.spec_radius() as int,
                ) == -1,
            },
    {
        let mut i: usize = 0;
        while i < enemies.len()
            invariant
                i <= enemies@.len(),
                all_wf(enemies@),
                first_touching(states(enemies@), 0, self.position, self.radius as int)
                    == first_touching(states(enemies@), i as int, self.position, self.radius as int),
            decreases enemies@.len() - i,
        {
            assert(enemies@[i as int].wf());
            assert(states(enemies@)[i as int] == enemies@[i as int]@);
            if enemies[i].collides(self.position, self.radius) {
                return Some(&enemies[i]);
            }
            i += 1;
        }
        None
    }

    /// Returns the length of line segment which this range can see.
    pub fn line_intersection(&self, a: Vector, b: Vector) -> (length: u64)
        requires
            self.wf(),
            in_reach(a),
            in_reach(b),
        ensures
            length == seen_length(
                line_circle_points(self.spec_position(), self.spec_radius(), a, b),
            ),
            length <= 0x1_6a09_e667,
    {
        let collisions = line_circle_collision(self.position, self.radius, a, b);
        match collisions {
            LineCircleCollision::Zero | LineCircleCollision::One(_) => 0,
            LineCircleCollision::Two(a, b) => distance_between(a, b),
        }
    }

    pub fn set_position(&mut self, position: Vector)
        ensures
            final(self).spec_position() == position,
            final(self).spec_radius() == old(self).spec_radius(),
    {
        self.position = position;
    }

    /// A circle looks the same in every direction.
    pub fn set_direction(&mut self, direction: Angle)
        ensures
            *final(self) == *old(self),
    {
    }
}

/// What a sector is.
pub struct SectorView {
    pub position: Vector,
    pub radius: u32,
    pub direction: Angle,
    pub fov: Angle,
}

impl View for SectorRange {
    type V = SectorView;

    closed spec fn view(&self) -> SectorView {
        SectorView {
            position: self.position,
            radius: self.radius,
            direction: self.direction,
            fov: self.fov,
        }
    }
}

/// The displacement from `from` to `to`.
pub open spec fn offset(from: Vector, to: Vector) -> Vector {
    Vector { x: (to.x - from.x) as i32, y: (to.y - from.y) as i32 }
}

/// Whether the sector sees the enemy, given the direction `bearing` in which
/// the enemy stands as seen from the sector's centre.
pub open spec fn sector_sees(sector: SectorView, enemy: EnemyState, bearing: Angle) -> bool {
    enemy.collides(sector.position, sector.radius as int) && within_view(
        bearing as int,
        sector.direction as int,
        sector.fov as int,
    )
}

/// Whether the sector does not see the enemy: it does not touch the circle,
/// or `bearing_of` placed it outside the field of view.
pub open spec fn sector_misses<B: Fn(Vector) -> Angle>(
    sector: SectorView,
    enemy: EnemyState,
    bearing_of: B,
) -> bool {
    !enemy.collides(sector.position, sector.radius as int) || exists|bearing: Angle|
        #[trigger] bearing_of.ensures((offset(sector.position, enemy.position()),), bearing)
            && !within_view(bearing as int, sector.direction as int, sector.fov as int)
}

/// Whether the sector sees the enemy: it touches the circle, and
/// `bearing_of` placed it in the field of view.
pub open spec fn sector_finds<B: Fn(Vector) -> Angle>(
    sector: SectorView,
    enemy: EnemyState,
    bearing_of: B,
) -> bool {
    exists|bearing: Angle|
        #[trigger] bearing_of.ensures((offset(sector.position, enemy.position()),), bearing)
            && sector_sees(sector, enemy, bearing)
}

/// Whether `found` is the place of the first of `list` that the sector
/// sees; none where it is `-1`.
pub open spec fn sector_target<B: Fn(Vector) -> Angle>(
    sector: SectorView,
    list: Seq<EnemyState>,
    bearing_of: B,
    found: int,
) -> bool {
    &&& -1 <= found < list.len()
    &&& found >= 0 ==> sector_finds(sector, list[found], bearing_of)
    &&& forall|i: int|
        0 <= i < list.len() && (i < found || found == -1) ==> sector_misses(
            sector,
            #[trigger] list[i],
            bearing_of,
        )
}

impl SectorRange {
    /// The range is near enough to the origin, and small enough, for
    /// collision tests, and its angles are in range.
    pub open spec fn wf(&self) -> bool {
        &&& in_launch_range(self@.position)
        &&& self@.radius <= RADIUS_LIMIT
        &&& crate::collisions::angle_in_range(self@.direction)
        &&& crate::collisions::angle_in_range(self@.fov)
        &&& self@.fov >= 0
    }

    /// Constructs a range round `position`.
    pub fn new(position: Vector, radius: u32, direction: Angle, fov: Angle) -> (range: Self)
        ensures
            range@ == (SectorView { position, radius, direction, fov }),
    {
        Self { position, radius, direction, fov }
    }

    /// The centre of the range.
    pub fn position(&self) -> (position: Vector)
        ensures
            position == self@.position,
    {
        self.position
    }

    /// The radius of the range.
    pub fn radius(&self) -> (radius: u32)
        ensures
            radius == self@.radius,
    {
        self.radius
    }

    /// The direction in which the sector faces.
    pub fn direction(&self) -> (direction: Angle)
        ensures
            direction == self@.direction,
    {
        self.direction
    }

    /// The field of view of the sector.
    pub fn fov(&self) -> (fov: Angle)
        ensures
            fov == self@.fov,
    {
        self.fov
    }

    /// Choose an enemy which this range can see, to shoot at: the first that
    /// touches the circle and stands in the field of view. `bearing_of`
    /// tells in which direction a displacement points.
    pub fn get_target<'b, B: Fn(Vector) -> Angle>(
        &self,
        enemies: &'b Vec<Enemy<Alive>>,
        bearing_of: &B,
    ) -> (target: Option<&'b Enemy<Alive>>)
        requires
            all_wf(enemies@),
            in_launch_range(self@.position),
            forall|v: Vector| bearing_of.requires((v,)),
        ensures
            match target {
                Some(enemy) => exists|found: int|
                    0 <= found < enemies@.len() && *enemy == #[trigger] enemies@[found]
                        && sector_target(self@, states(enemies@), *bearing_of, found),
                None => sector_target(self@, states(enemies@), *bearing_of, -1),
            },
    {
        let mut i: usize = 0;
        while i < enemies.len()
            invariant
                i <= enemies@.len(),
                all_wf(enemies@),
                in_launch_range(self@.position),
                forall|v: Vector| bearing_of.requires((v,)),
                forall|k: int|
                    0 <= k < i ==> sector_misses(
                        self@,
                        #[trigger] states(enemies@)[k],
                        *bearing_of,
                    ),
            decreases enemies@.len() - i,
        {
            let enemy = &enemies[i];
            assert(enemies@[i as int].wf());
            assert(states(enemies@)[i as int] == enemies@[i as int]@);
            if enemy.collides(self.position, self.radius) {
                let position = enemy.position();
                let seen_from = Vector {
                    x: position.x - self.position.x,
                    y: position.y - self.position.y,
                };
                let bearing = bearing_of(seen_from);
                if in_view(bearing, self.direction, self.fov) {
                    proof {
                        assert(bearing_of.ensures(
                            (offset(self@.position, enemy@.position()),),
                            bearing,
                        ) && sector_sees(self@, enemy@, bearing));
                        assert(sector_target(self@, states(enemies@), *bearing_of, i as int));
                    }
                    return Some(enemy);
                }
                proof {
                    assert(bearing_of.ensures((offset(self@.position, enemy@.position()),), bearing)
                        && !within_view(
                        bearing as int,
                        self@.direction as int,
                        self@.fov as int,
                    ));
                }
            }
            i += 1;
        }
        None
    }

    /// Returns the length of line segment which this range can see.
    /// `bearing_of` tells in which direction a displacement points;
    /// `from_polar` gives the displacement of a length in a direction.
    pub fn line_intersection<B: Fn(Vector) -> Angle, P: Fn(Angle, u32) -> Vector>(
        &self,
        a: Vector,
        b: Vector,
        bearing_of: &B,
        from_polar: &P,
    ) -> (length: u64)
        requires
            self.wf(),
            in_reach(a),
            in_reach(b),
            forall|v: Vector| bearing_of.requires((v,)),
            forall|angle: Angle, length: u32| from_polar.requires((angle, length)),
            forall|angle: Angle, length: u32, edge: Vector|
                from_polar.ensures((angle, length), edge) ==> -length <= edge.x <= length
                    && -length <= edge.y <= length,
        ensures
            exists|hits: Seq<Vector>|
                #[trigger] crate::collisions::meets_sector(
                    self@.position,
                    self@.radius,
                    self@.direction,
                    self@.fov,
                    a,
                    b,
                    bearing_of,
                    from_polar,
                    hits,
                ) && length == seen_length(hits),
            length <= 0x1_6a09_e667,
    {
        let collisions = line_sector_collision(
            self.position,
            self.radius,
            self.direction,
            self.fov,
            a,
            b,
            bearing_of,
            from_polar,
        );
        let length = if collisions.len() == 2 {
            distance_between(collisions[0], collisions[1])
        } else {
            0
        };
        proof {
            assert(crate::collisions::meets_sector(
                self@.position,
                self@.radius,
                self@.direction,
                self@.fov,
                a,
                b,
                bearing_of,
                from_polar,
                collisions@,
            ) && length == seen_length(collisions@));
        }
        length
    }

    pub fn set_position(&mut self, position: Vector)
        ensures
            final(self)@ == (SectorView { position, ..old(self)@ }),
    {
        self.position = position;
    }

    pub fn set_direction(&mut self, direction: Angle)
        ensures
            final(self)@ == (SectorView { direction, ..old(self)@ }),
    {
        self.direction = direction;
    }
}

/// The radius of a tower.
pub const TOWER_RADIUS: u32 = 200;

/// The radius of the range of a tower with a circular range.
pub const TEST_TOWER_RANGE: u32 = 3_000;

/// The radius of the range of a tower with a range in the shape of a sector.
pub const SECTOR_TOWER_RANGE: u32 = 4_000;

/// The field of view of a tower with a range in the shape of a sector: a
/// quarter of a turn.
pub const SECTOR_TOWER_FOV: Angle = 324_000;

/// The bullets as they are before they move: those that the tower has, and
/// the one that it shoots, if it shoots.
pub open spec fn with_shot(bullets: Seq<BulletState>, shot: Option<BulletState>) -> Seq<BulletState> {
    match shot {
        Some(bullet) => bullets.push(bullet),
        None => bullets,
    }
}

/// The time that is left until the next shot, a frame after it was `time`:
/// `cooldown` once the tower has shot, and where it was ready but saw no
/// target, it stays ready.
pub open spec fn time_after(time: int, shot: bool, cooldown: int) -> int {
    if time == 0 {
        if shot {
            cooldown
        } else {
            0
        }
    } else {
        time - 1
    }
}

/// How a tower stands.
pub struct TowerState {
    /// Where the tower stands.
    pub position: Vector,
    /// The number of frames until the tower can shoot.
    pub time_to_next_shot: int,
    /// The bullets that the tower has shot and that still last.
    pub bullets: Seq<BulletState>,
}

/// Whether `after` and `left` are how the tower stands, and the enemies
/// that are left, a frame after it stood as `before` among `enemies`, if it
/// shot `shot` at the start of the frame.
pub open spec fn tower_step(
    before: TowerState,
    enemies: Seq<EnemyState>,
    bounds: Vector,
    cooldown: int,
    shot: Option<BulletState>,
    after: TowerState,
    left: Seq<EnemyState>,
) -> bool {
    let bullets = with_shot(before.bullets, shot);
    &&& after.position == before.position
    &&& after.time_to_next_shot == time_after(before.time_to_next_shot, shot is Some, cooldown)
    &&& after.bullets == bullets_after(bullets, bullets.len() as int, enemies, bounds)
    &&& left == enemies_after(bullets, 0, enemies)
}

/// The lightning that a tower at `position` shoots at the enemy.
pub open spec fn lightning_at(position: Vector, enemy: EnemyState) -> BulletState {
    BulletState::Lightning {
        start: position,
        direction: offset(position, enemy.position()),
        life: LIGHTNING_LIFESPAN as int,
    }
}

/// Whether `after` and `left` are how a tower with a circular range
/// stands, and the enemies that are left, a frame after it stood as `before`
/// among `enemies`: it shoots lightning at the first enemy that touches its
/// range if it is ready, then its bullets move.
pub open spec fn test_tower_step(
    before: TowerState,
    enemies: Seq<EnemyState>,
    bounds: Vector,
    after: TowerState,
    left: Seq<EnemyState>,
) -> bool {
    let target = first_touching(enemies, 0, before.position, TEST_TOWER_RANGE as int);
    tower_step(
        before,
        enemies,
        bounds,
        60,
        if before.time_to_next_shot == 0 && target >= 0 {
            Some(lightning_at(before.position, enemies[target]))
        } else {
            None
        },
        after,
        left,
    )
}

/// Represents a simple tower with a circular range
#[derive(Debug)]
pub struct TestTower {
    time_to_next_shot: usize,
    position: Vector,
    bullets: Vec<Bullet<Alive>>,
    range: CircularRange,
}

impl View for TestTower {
    type V = TowerState;

    closed spec fn view(&self) -> TowerState {
        TowerState {
            position: self.position,
            time_to_next_shot: self.time_to_next_shot as int,
            bullets: bullet_states(self.bullets@),
        }
    }
}

impl TestTower {
    /// The tower stands near enough to the origin for its bullets to be
    /// followed, its range lies round it, and its bullets are well-formed.
    pub closed spec fn wf(&self) -> bool {
        &&& in_launch_range(self.position)
        &&& self.range.spec_position() == self.position
        &&& self.range.spec_radius() == TEST_TOWER_RANGE
        &&& self.time_to_next_shot <= 60
        &&& all_bullets_wf(self.bullets@)
    }

    /// The time between shots for this tower (frames)
    #[inline(always)]
    pub fn cooldown() -> (frames: usize)
        ensures
            frames == 60,
    {
        60
    }

    /// This is how much this tower costs (money)
    #[inline(always)]
    pub fn price() -> (price: usize)
        ensures
            price == 25,
    {
        25
    }

    pub fn new(position: Vector) -> (tower: Self)
        requires
            in_launch_range(position),
        ensures
            tower.wf(),
            tower@ == (TowerState { position, time_to_next_shot: 60, bullets: Seq::empty() }),
    {
        let tower = Self {
            time_to_next_shot: Self::cooldown(),
            position,
            bullets: Vec::new(),
            range: CircularRange::new(position, TEST_TOWER_RANGE),
        };
        proof {
            assert(bullet_states(tower.bullets@) =~= Seq::empty());
        }
        tower
    }

    /// Returns a new range which can be used for stuff
    pub fn new_range(position: Vector) -> (range: CircularRange)
        ensures
            range.spec_position() == position,
            range.spec_radius() == TEST_TOWER_RANGE,
    {
        CircularRange::new(position, TEST_TOWER_RANGE)
    }

    /// Update the tower and its bullets: the tower shoots lightning at the
    /// first enemy in its range if it is ready, then its bullets move.
    pub fn update(&mut self, enemies: Vec<Enemy<Alive>>, bounds: Vector) -> (left: Vec<
        Enemy<Alive>,
    >)
        requires
            old(self).wf(),
            all_wf(enemies@),
            0 <= bounds.x <= LAUNCH_LIMIT - 1_000,
            0 <= bounds.y <= LAUNCH_LIMIT - 1_000,
        ensures
            final(self).wf(),
            all_wf(left@),
            test_tower_step(old(self)@, states(enemies@), bounds, final(self)@, states(left@)),
    {
        let ghost had = self.bullets@;
        if self.time_to_next_shot == 0 {
            // shoot!
            if let Some(enemy) = self.range.get_target(&enemies) {
                let bullet = Bullet::new(Lightning::spawn(self.position, enemy.position()));
                self.bullets.push(bullet);
                self.time_to_next_shot = TestTower::cooldown();
                proof {
                    assert(bullet_states(self.bullets@) =~= bullet_states(had).push(bullet@));
                    assert forall|i: int| 0 <= i < self.bullets@.len() implies (
                    #[trigger] self.bullets@[i])@.wf() by {
                        if i < had.len() {
                            assert(had[i]@.wf());
                        }
                    }
                }
            }
        } else {
            self.time_to_next_shot -= 1
        }
        let mut bullets: Vec<Bullet<Alive>> = Vec::new();
        core::mem::swap(&mut bullets, &mut self.bullets);
        let (new_bullets, new_enemies) = Bullet::update_all(bullets, enemies, bounds);
        self.bullets = new_bullets;
        new_enemies
    }

    /// How long this tower has until it shoots (frames)
    pub fn time_until_shot(&self) -> (frames: usize)
        ensures
            frames == self@.time_to_next_shot,
    {
        self.time_to_next_shot
    }

    /// Get the position of the tower
    pub fn position(&self) -> (position: Vector)
        ensures
            position == self@.position,
    {
        self.position
    }

    /// Get the radius of the tower
    pub fn radius(&self) -> (radius: u32)
        ensures
            radius == TOWER_RADIUS,
    {
        TOWER_RADIUS
    }

    /// Get the range of the tower
    pub fn range(&self) -> (range: &CircularRange)
        ensures
            self.wf() ==> range.spec_position() == self@.position && range.spec_radius()
                == TEST_TOWER_RANGE,
    {
        &self.range
    }

    /// Get the living bullets of this tower
    pub fn bullets(&self) -> (bullets: &Vec<Bullet<Alive>>)
        ensures
            bullet_states(bullets@) == self@.bullets,
    {
        &self.bullets
    }

    /// Returns the length of the line segment from a to b which can be seen
    /// by this tower
    pub fn visible_area(&self, a: Vector, b: Vector) -> (length: u64)
        requires
            self.wf(),
            in_reach(a),
            in_reach(b),
        ensures
            length == seen_length(line_circle_points(self@.position, TEST_TOWER_RANGE, a, b)),
            length <= 0x1_6a09_e667,
    {
        self.range.line_intersection(a, b)
    }
}

/// A simple tower with a range in the shape of a sector
#[derive(Debug)]
pub struct SectorTower {
    time_to_next_shot: usize,
    position: Vector,
    bullets: Vec<Bullet<Alive>>,
    range: SectorRange,
}

impl View for SectorTower {
    type V = TowerState;

    closed spec fn view(&self) -> TowerState {
        TowerState {
            position: self.position,
            time_to_next_shot: self.time_to_next_shot as int,
            bullets: bullet_states(self.bullets@),
        }
    }
}

/// Whether `shot` is what a tower with a sector for a range shoots at the
/// start of a frame: a projectile at the first enemy that it sees, with the
/// velocity that `aim` gave, if it is ready and sees one.
pub open spec fn sector_shot<B: Fn(Vector) -> Angle, A: Fn(Vector, Vector, Vector, u32) -> Vector>(
    tower: TowerState,
    sector: SectorView,
    enemies: Seq<EnemyState>,
    bearing_of: B,
    aim: A,
    shot: Option<BulletState>,
) -> bool {
    if tower.time_to_next_shot != 0 {
        shot is None
    } else {
        exists|found: int| #[trigger]
            sector_target(sector, enemies, bearing_of, found) && if found < 0 {
                shot is None
            } else {
                shot matches Some(BulletState::Projectile { position, velocity }) && position
                    == tower.position && aim.ensures(
                    (
                        tower.position,
                        enemies[found].position(),
                        enemies[found].velocity(),
                        PROJECTILE_SPEED,
                    ),
                    velocity,
                )
            }
    }
}

/// Whether `after` and `left` are how a tower with a sector for a range
/// stands, and the enemies that are left, a frame after it stood as `before`
/// among `enemies`: it shoots a projectile at the first enemy that it sees if
/// it is ready, then its bullets move.
pub open spec fn sector_tower_step<
    B: Fn(Vector) -> Angle,
    A: Fn(Vector, Vector, Vector, u32) -> Vector,
>(
    before: TowerState,
    sector: SectorView,
    enemies: Seq<EnemyState>,
    bounds: Vector,
    bearing_of: B,
    aim: A,
    after: TowerState,
    left: Seq<EnemyState>,
) -> bool {
    exists|shot: Option<BulletState>|
        sector_shot(before, sector, enemies, bearing_of, aim, shot) && #[trigger] tower_step(
            before,
            enemies,
            bounds,
            20,
            shot,
            after,
            left,
        )
}

impl SectorTower {
    /// The tower stands near enough to the origin for its bullets to be
    /// followed, its range lies round it, and its bullets are well-formed.
    pub closed spec fn wf(&self) -> bool {
        &&& in_launch_range(self.position)
        &&& self.range@.position == self.position
        &&& self.range@.radius == SECTOR_TOWER_RANGE
        &&& self.range@.fov == SECTOR_TOWER_FOV
        &&& crate::collisions::angle_in_range(self.range@.direction)
        &&& self.time_to_next_shot <= 20
        &&& all_bullets_wf(self.bullets@)
    }

    /// The sector in which the tower sees.
    pub closed spec fn sector(&self) -> SectorView {
        self.range@
    }

    /// The time between shots for this tower
    #[inline(always)]
    pub fn cooldown() -> (frames: usize)
        ensures
            frames == 20,
    {
        20
    }

    /// This is how much this tower costs (money)
    pub fn price() -> (price: usize)
        ensures
            price == 15,
    {
        15
    }

    pub fn new(position: Vector, direction: Angle) -> (tower: Self)
        requires
            in_launch_range(position),
            crate::collisions::angle_in_range(direction),
        ensures
            tower.wf(),
            tower@ == (TowerState { position, time_to_next_shot: 20, bullets: Seq::empty() }),
            tower.sector() == (SectorView {
                position,
                radius: SECTOR_TOWER_RANGE,
                direction,
                fov: SECTOR_TOWER_FOV,
            }),
    {
        let tower = Self {
            time_to_next_shot: Self::cooldown(),
            position,
            bullets: Vec::new(),
            range: SectorRange::new(position, SECTOR_TOWER_RANGE, direction, SECTOR_TOWER_FOV),
        };
        proof {
            assert(bullet_states(tower.bullets@) =~= Seq::empty());
        }
        tower
    }

    /// Returns a new range which can be used for stuff
    pub fn new_range(position: Vector, direction: Angle) -> (range: SectorRange)
        ensures
            range@ == (SectorView {
                position,
                radius: SECTOR_TOWER_RANGE,
                direction,
                fov: SECTOR_TOWER_FOV,
            }),
    {
        SectorRange::new(position, SECTOR_TOWER_RANGE, direction, SECTOR_TOWER_FOV)
    }

    /// Update the tower and its bullets: the tower shoots a projectile at
    /// the first enemy in its range if it is ready, then its bullets move.
    /// `bearing_of` tells in which direction a displacement points; `aim`
    /// gives the velocity with which a projectile of a given speed, shot from
    /// one place, hits a target that moves from another place with a given
    /// velocity.
    pub fn update<B: Fn(Vector) -> Angle, A: Fn(Vector, Vector, Vector, u32) -> Vector>(
        &mut self,
        enemies: Vec<Enemy<Alive>>,
        bounds: Vector,
        bearing_of: &B,
        aim: &A,
    ) -> (left: Vec<Enemy<Alive>>)
        requires
            old(self).wf(),
            all_wf(enemies@),
            0 <= bounds.x <= LAUNCH_LIMIT - 1_000,
            0 <= bounds.y <= LAUNCH_LIMIT - 1_000,
            forall|v: Vector| bearing_of.requires((v,)),
            forall|from: Vector, to: Vector, moving: Vector, speed: u32|
                aim.requires((from, to, moving, speed)),
            forall|from: Vector, to: Vector, moving: Vector, speed: u32, velocity: Vector|
                aim.ensures((from, to, moving, speed), velocity) ==> in_launch_range(velocity),
        ensures
            final(self).wf(),
            final(self).sector() == old(self).sector(),
            all_wf(left@),
            sector_tower_step(
                old(self)@,
                old(self).sector(),
                states(enemies@),
                bounds,
                *bearing_of,
                *aim,
                final(self)@,
                states(left@),
            ),
    {
        let ghost had = self.bullets@;
        let ghost mut shot: Option<BulletState> = None;
        if self.time_to_next_shot == 0 {
            if let Some(enemy) = self.range.get_target(&enemies, bearing_of) {
                let velocity = aim(
                    self.position,
                    enemy.position(),
                    enemy.velocity(),
                    PROJECTILE_SPEED,
                );
                let bullet = Bullet::new(Projectile::spawn(self.position, velocity));
                self.bullets.push(bullet);
                self.time_to_next_shot = Self::cooldown();
                proof {
                    shot = Some(bullet@);
                    assert(bullet_states(self.bullets@) =~= bullet_states(had).push(bullet@));
                    assert forall|i: int| 0 <= i < self.bullets@.len() implies (
                    #[trigger] self.bullets@[i])@.wf() by {
                        if i < had.len() {
                            assert(had[i]@.wf());
                        }
                    }
                    let found = choose|found: int|
                        0 <= found < enemies@.len() && *enemy == #[trigger] enemies@[found]
                            && sector_target(
                            old(self).sector(),
                            states(enemies@),
                            *bearing_of,
                            found,
                        );
                    assert(states(enemies@)[found] == enemy@);
                    assert(sector_target(old(self).sector(), states(enemies@), *bearing_of, found));
                }
            } else {
                proof {
                    assert(sector_target(old(self).sector(), states(enemies@), *bearing_of, -1));
                }
            }
        } else {
            self.time_to_next_shot -= 1
        }
        proof {
            assert(sector_shot(
                old(self)@,
                old(self).sector(),
                states(enemies@),
                *bearing_of,
                *aim,
                shot,
            ));
        }
        let mut bullets: Vec<Bullet<Alive>> = Vec::new();
        core::mem::swap(&mut bullets, &mut self.bullets);
        let (new_bullets, new_enemies) = Bullet::update_all(bullets, enemies, bounds);
        self.bullets = new_bullets;
        proof {
            assert(tower_step(
                old(self)@,
                states(enemies@),
                bounds,
                20,
                shot,
                self@,
                states(new_enemies@),
            ));
        }
        new_enemies
    }

    /// How long this tower has until it shoots (frames)
    pub fn time_until_shot(&self) -> (frames: usize)
        ensures
            frames == self@.time_to_next_shot,
    {
        self.time_to_next_shot
    }

    /// Get the position of the tower
    pub fn position(&self) -> (position: Vector)
        ensures
            position == self@.position,
    {
        self.position
    }

    /// Get the radius of the tower
    pub fn radius(&self) -> (radius: u32)
        ensures
            radius == TOWER_RADIUS,
    {
        TOWER_RADIUS
    }

    /// Get the range of the tower
    pub fn range(&self) -> (range: &SectorRange)
        ensures
            range@ == self.sector(),
    {
        &self.range
    }

    /// Get the living bullets of this tower
    pub fn bullets(&self) -> (bullets: &Vec<Bullet<Alive>>)
        ensures
            bullet_states(bullets@) == self@.bullets,
    {
        &self.bullets
    }

    /// Returns the length of the line segment from a to b which can be seen
    /// by this tower
    pub fn visible_area<B: Fn(Vector) -> Angle, P: Fn(Angle, u32) -> Vector>(
        &self,
        a: Vector,
        b: Vector,
        bearing_of: &B,
        from_polar: &P,
    ) -> (length: u64)
        requires
            self.wf(),
            in_reach(a),
            in_reach(b),
            forall|v: Vector| bearing_of.requires((v,)),
            forall|angle: Angle, length: u32| from_polar.requires((angle, length)),
            forall|angle: Angle, length: u32, edge: Vector|
                from_polar.ensures((angle, length), edge) ==> -length <= edge.x <= length
                    && -length <= edge.y <= length,
        ensures
            exists|hits: Seq<Vector>|
                #[trigger] crate::collisions::meets_sector(
                    self.sector().position,
                    self.sector().radius,
                    self.sector().direction,
                    self.sector().fov,
                    a,
                    b,
                    bearing_of,
                    from_polar,
                    hits,
                ) && length == seen_length(hits),
            length <= 0x1_6a09_e667,
    {
        let length = self.range.line_intersection(a, b, bearing_of, from_polar);
        proof {
            let hits = choose|hits: Seq<Vector>|
                #[trigger] crate::collisions::meets_sector(
                    self.range@.position,
                    self.range@.radius,
                    self.range@.direction,
                    self.range@.fov,
                    a,
                    b,
                    bearing_of,
                    from_polar,
                    hits,
                ) && length == seen_length(hits);
            assert(crate::collisions::meets_sector(
                self.sector().position,
                self.sector().radius,
                self.sector().direction,
                self.sector().fov,
                a,
                b,
                bearing_of,
                from_polar,
                hits,
            ) && length == seen_length(hits));
        }
        length
    }
}

/// The view of a tower
#[derive(Debug)]
pub enum Range {
    Circular(CircularRange),
    Sector(SectorRange),
}

impl Range {
    /// The centre of the range.
    pub open spec fn spec_position(&self) -> Vector {
        match self {
            Range::Circular(range) => range.spec_position(),
            Range::Sector(range) => range@.position,
        }
    }

    /// The centre of the range.
    pub fn position(&self) -> (position: Vector)
        ensures
            position == self.spec_position(),
    {
        match self {
            Range::Circular(range) => range.position(),
            Range::Sector(range) => range.position(),
        }
    }

    /// Moves the range to `position`.
    pub fn set_position(&mut self, position: Vector)
        ensures
            final(self).spec_position() == position,
            match (*old(self), *final(self)) {
                (Range::Circular(before), Range::Circular(after)) => after.spec_radius()
                    == before.spec_radius(),
                (Range::Sector(before), Range::Sector(after)) => after@ == (SectorView {
                    position,
                    ..before@
                }),
                _ => false,
            },
    {
        match self {
            Range::Circular(range) => range.set_position(position),
            Range::Sector(range) => range.set_position(position),
        }
    }

    /// Turns the range to face in `direction`.
    pub fn set_direction(&mut self, direction: Angle)
        ensures
            match (*old(self), *final(self)) {
                (Range::Circular(before), Range::Circular(after)) => after == before,
                (Range::Sector(before), Range::Sector(after)) => after@ == (SectorView {
                    direction,
                    ..before@
                }),
                _ => false,
            },
    {
        match self {
            Range::Circular(range) => range.set_direction(direction),
            Range::Sector(range) => range.set_direction(direction),
        }
    }
}

/// Represents any kind of tower
#[derive(Debug)]
pub enum Tower {
    Test(TestTower),
    Sector(SectorTower),
}

impl View for Tower {
    type V = TowerState;

    open spec fn view(&self) -> TowerState {
        match self {
            Tower::Test(tower) => tower@,
            Tower::Sector(tower) => tower@,
        }
    }
}

/// Whether `after` and `left` are how the tower stands, and the enemies that
/// are left, a frame after it stood as `before` among `enemies`.
pub open spec fn tower_updated<B: Fn(Vector) -> Angle, A: Fn(Vector, Vector, Vector, u32) -> Vector>(
    before: Tower,
    enemies: Seq<EnemyState>,
    bounds: Vector,
    bearing_of: B,
    aim: A,
    after: Tower,
    left: Seq<EnemyState>,
) -> bool {
    match (before, after) {
        (Tower::Test(before), Tower::Test(after)) => test_tower_step(
            before@,
            enemies,
            bounds,
            after@,
            left,
        ),
        (Tower::Sector(before), Tower::Sector(after)) => after.sector() == before.sector()
            && sector_tower_step(
            before@,
            before.sector(),
            enemies,
            bounds,
            bearing_of,
            aim,
            after@,
            left,
        ),
        _ => false,
    }
}

/// Whether `length` is the length of the line segment from `a` to `b` that
/// the tower sees.
pub open spec fn tower_sees<B: Fn(Vector) -> Angle, P: Fn(Angle, u32) -> Vector>(
    tower: Tower,
    a: Vector,
    b: Vector,
    bearing_of: B,
    from_polar: P,
    length: int,
) -> bool {
    match tower {
        Tower::Test(tower) => length == seen_length(
            line_circle_points(tower@.position, TEST_TOWER_RANGE, a, b),
        ),
        Tower::Sector(tower) => exists|hits: Seq<Vector>|
            #[trigger] crate::collisions::meets_sector(
                tower.sector().position,
                tower.sector().radius,
                tower.sector().direction,
                tower.sector().fov,
                a,
                b,
                bearing_of,
                from_polar,
                hits,
            ) && length == seen_length(hits),
    }
}

/// A tower leaves no more enemies than there were.
pub proof fn lemma_tower_leaves_fewer<
    B: Fn(Vector) -> Angle,
    A: Fn(Vector, Vector, Vector, u32) -> Vector,
>(
    before: Tower,
    enemies: Seq<EnemyState>,
    bounds: Vector,
    bearing_of: B,
    aim: A,
    after: Tower,
    left: Seq<EnemyState>,
)
    requires
        tower_updated(before, enemies, bounds, bearing_of, aim, after, left),
    ensures
        left.len() <= enemies.len(),
{
    match (before, after) {
        (Tower::Test(before), Tower::Test(after)) => {
            let target = first_touching(enemies, 0, before@.position, TEST_TOWER_RANGE as int);
            let shot = if before@.time_to_next_shot == 0 && target >= 0 {
                Some(lightning_at(before@.position, enemies[target]))
            } else {
                None
            };
            crate::bullet::lemma_enemies_after_fewer(with_shot(before@.bullets, shot), 0, enemies);
        },
        (Tower::Sector(before), Tower::Sector(after)) => {
            let shot = choose|shot: Option<BulletState>|
                sector_shot(before@, before.sector(), enemies, bearing_of, aim, shot)
                    && #[trigger] tower_step(before@, enemies, bounds, 20, shot, after@, left);
            crate::bullet::lemma_enemies_after_fewer(with_shot(before@.bullets, shot), 0, enemies);
        },
        _ => {},
    }
}

impl Tower {
    /// The tower is well-formed.
    pub open spec fn wf(&self) -> bool {
        match self {
            Tower::Test(tower) => tower.wf(),
            Tower::Sector(tower) => tower.wf(),
        }
    }

    /// Update the tower and its bullets
    pub fn update<B: Fn(Vector) -> Angle, A: Fn(Vector, Vector, Vector, u32) -> Vector>(
        &mut self,
        enemies: Vec<Enemy<Alive>>,
        bounds: Vector,
        bearing_of: &B,
        aim: &A,
    ) -> (left: Vec<Enemy<Alive>>)
        requires
            old(self).wf(),
            all_wf(enemies@),
            0 <= bounds.x <= LAUNCH_LIMIT - 1_000,
            0 <= bounds.y <= LAUNCH_LIMIT - 1_000,
            forall|v: Vector| bearing_of.requires((v,)),
            forall|from: Vector, to: Vector, moving: Vector, speed: u32|
                aim.requires((from, to, moving, speed)),
            forall|from: Vector, to: Vector, moving: Vector, speed: u32, velocity: Vector|
                aim.ensures((from, to, moving, speed), velocity) ==> in_launch_range(velocity),
        ensures
            final(self).wf(),
            all_wf(left@),
            tower_updated(
                *old(self),
                states(enemies@),
                bounds,
                *bearing_of,
                *aim,
                *final(self),
                states(left@),
            ),
    {
        match self {
            Tower::Test(tower) => tower.update(enemies, bounds),
            Tower::Sector(tower) => tower.update(enemies, bounds, bearing_of, aim),
        }
    }

    /// How long this tower has until it shoots (frames)
    pub fn time_until_shot(&self) -> (frames: usize)
        ensures
            frames == self@.time_to_next_shot,
    {
        match self {
            Tower::Test(tower) => tower.time_until_shot(),
            Tower::Sector(tower) => tower.time_until_shot(),
        }
    }

    /// Get the position of the tower
    pub fn position(&self) -> (position: Vector)
        ensures
            position == self@.position,
    {
        match self {
            Tower::Test(tower) => tower.position(),
            Tower::Sector(tower) => tower.position(),
        }
    }

    /// Get the radius of the tower
    pub fn radius(&self) -> (radius: u32)
        ensures
            radius == TOWER_RADIUS,
    {
        TOWER_RADIUS
    }

    /// Get the living bullets of this tower
    pub fn bullets(&self) -> (bullets: &Vec<Bullet<Alive>>)
        ensures
            bullet_states(bullets@) == self@.bullets,
    {
        match self {
            Tower::Test(tower) => tower.bullets(),
            Tower::Sector(tower) => tower.bullets(),
        }
    }

    /// Returns the length of the line segment from a to b which can be seen
    /// by this tower
    pub fn visible_area<B: Fn(Vector) -> Angle, P: Fn(Angle, u32) -> Vector>(
        &self,
        a: Vector,
        b: Vector,
        bearing_of: &B,
        from_polar: &P,
    ) -> (length: u64)
        requires
            self.wf(),
            in_reach(a),
            in_reach(b),
            forall|v: Vector| bearing_of.requires((v,)),
            forall|angle: Angle, length: u32| from_polar.requires((angle, length)),
            forall|angle: Angle, length: u32, edge: Vector|
                from_polar.ensures((angle, length), edge) ==> -length <= edge.x <= length
                    && -length <= edge.y <= length,
        ensures
            tower_sees(*self, a, b, bearing_of, from_polar, length as int),
            length <= 0x1_6a09_e667,
    {
        match self {
            Tower::Test(tower) => tower.visible_area(a, b),
            Tower::Sector(tower) => tower.visible_area(a, b, bearing_of, from_polar),
        }
    }
}

} // verus!
