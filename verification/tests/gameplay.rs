use across::bullet::{
    Bullet, BulletKind, BulletTrait, Lightning, Projectile, LIGHTNING_LIFESPAN, LIGHTNING_REACH,
};
use across::enemy::{Enemy, EnemyKind, EnemyTrait, FastEnemy, TestEnemy, FULL_HEALTH};
use across::game::{obstructed_weight, GameState, TowerKind, STARTING_MONEY};
use across::path::{Route, Web};
use across::rounds::{Round, FAST_ENEMY_ROLL};
use across::tower::{CircularRange, Range, SectorRange, SectorTower, TestTower, Tower};
use across::vector::{distance_between, Vector, HALF_TURN};
use across::{Alive, GameMode, Updated, STARTING_LIVES};

const QUARTER_TURN: i64 = 324_000;

fn bearing(v: Vector) -> i64 {
    let radians = (v.y as f64).atan2(v.x as f64);
    (radians / std::f64::consts::PI * HALF_TURN as f64).round() as i64
}

fn polar(angle: i64, length: u32) -> Vector {
    let radians = angle as f64 / HALF_TURN as f64 * std::f64::consts::PI;
    Vector::new(
        (length as f64 * radians.cos()).round() as i32,
        (length as f64 * radians.sin()).round() as i32,
    )
}

/// Aims straight at where the target is now.
fn aim(from: Vector, to: Vector, _moving: Vector, speed: u32) -> Vector {
    let dx = (to.x - from.x) as f64;
    let dy = (to.y - from.y) as f64;
    let length = (dx * dx + dy * dy).sqrt();
    if length == 0.0 {
        return Vector::new(speed as i32, 0);
    }
    Vector::new(
        (dx / length * speed as f64).round() as i32,
        (dy / length * speed as f64).round() as i32,
    )
}

fn straight_route() -> Route {
    Route::from_positions_unchecked(vec![Vector::new(0, 0), Vector::new(1000, 0)])
}

fn progress_of(enemy: &Enemy<Alive>) -> i64 {
    match enemy.kind() {
        EnemyKind::Test(enemy) => enemy.progress(),
        EnemyKind::Fast(enemy) => enemy.progress(),
    }
}

fn alive(updated: Updated<Enemy<Alive>, Enemy<across::Dead>>) -> Enemy<Alive> {
    match updated {
        Updated::Alive(enemy) => enemy,
        Updated::Dead(_) => panic!("the enemy is dead"),
    }
}

fn enemy_at(x: i32) -> Enemy<Alive> {
    // stands at (x, 0) on a route along the x axis, and moves 26 units a frame
    let route =
        Route::from_positions_unchecked(vec![Vector::new(x, 0), Vector::new(x + 100_000, 0)]);
    TestEnemy::spawn(route, 1)
}

#[test]
fn test_enemy_spawns_at_the_start_with_full_health() {
    let enemy = TestEnemy::spawn(straight_route(), 1);
    assert_eq!(enemy.position(), Vector::new(0, 0));
    assert_eq!(enemy.health(), FULL_HEALTH);
    assert_eq!(enemy.radius(), 300);
    assert_eq!(progress_of(&enemy), 0);
    assert!(matches!(enemy.kind(), EnemyKind::Test(_)));
}

#[test]
fn test_enemy_speeds_up_with_the_rounds() {
    // 20 + 6 * round units a frame, on a route of 1000 units
    assert_eq!(TestEnemy::spawn(straight_route(), 0).velocity(), Vector::new(20, 0));
    assert_eq!(TestEnemy::spawn(straight_route(), 1).velocity(), Vector::new(26, 0));
    assert_eq!(TestEnemy::spawn(straight_route(), 5).velocity(), Vector::new(50, 0));
}

#[test]
fn fast_enemy_is_faster_and_larger() {
    let enemy = FastEnemy::spawn(straight_route(), 1);
    assert_eq!(enemy.velocity(), Vector::new(29, 0));
    assert_eq!(enemy.radius(), 500);
    assert!(matches!(enemy.kind(), EnemyKind::Fast(_)));
}

#[test]
fn enemy_moves_along_its_route() {
    let enemy = TestEnemy::spawn(straight_route(), 1);
    let enemy = alive(enemy.update());
    assert_eq!(progress_of(&enemy), 26_000);
    assert_eq!(enemy.position(), Vector::new(26, 0));
    let enemy = alive(enemy.update());
    assert_eq!(enemy.position(), Vector::new(52, 0));
}

#[test]
fn enemy_dies_at_the_end_of_its_route() {
    let mut enemy = TestEnemy::spawn(straight_route(), 1);
    // 38 steps of 26_000 leave it short of the end, the 39th takes it there
    for _ in 0..38 {
        enemy = alive(enemy.update());
    }
    assert_eq!(progress_of(&enemy), 988_000);
    assert!(matches!(enemy.update(), Updated::Dead(_)));
}

#[test]
fn enemy_on_a_short_route_is_there_at_once() {
    let route = Route::from_positions_unchecked(vec![Vector::new(0, 0), Vector::new(10, 0)]);
    let enemy = TestEnemy::spawn(route, 1);
    assert!(matches!(enemy.update(), Updated::Dead(_)));
    let route = Route::from_positions_unchecked(vec![Vector::new(5, 5), Vector::new(5, 5)]);
    let enemy = FastEnemy::spawn(route, 1);
    assert_eq!(enemy.position(), Vector::new(5, 5));
    assert!(matches!(enemy.update(), Updated::Dead(_)));
}

#[test]
fn test_enemy_takes_the_whole_hit() {
    let enemy = TestEnemy::spawn(straight_route(), 1);
    let enemy = alive(enemy.damage(400_000));
    assert_eq!(enemy.health(), 600_000);
    let enemy = alive(enemy.damage(400_000));
    assert_eq!(enemy.health(), 200_000);
    assert!(matches!(enemy.damage(400_000), Updated::Dead(_)));
}

#[test]
fn enemy_dies_of_a_hit_that_takes_all_it_has() {
    let enemy = TestEnemy::spawn(straight_route(), 1);
    assert!(matches!(enemy.damage(FULL_HEALTH), Updated::Dead(_)));
    let enemy = TestEnemy::spawn(straight_route(), 1);
    assert!(matches!(enemy.damage(u32::MAX), Updated::Dead(_)));
    let enemy = FastEnemy::spawn(straight_route(), 1);
    assert!(matches!(enemy.damage(u32::MAX), Updated::Dead(_)));
}

#[test]
fn fast_enemy_takes_ten_thirteenths_of_the_hit() {
    let enemy = FastEnemy::spawn(straight_route(), 1);
    let enemy = alive(enemy.damage(400_000));
    assert_eq!(enemy.health(), 692_308);
    let enemy = alive(enemy.damage(400_000));
    let enemy = alive(enemy.damage(400_000));
    assert_eq!(enemy.health(), 76_924);
    assert!(matches!(enemy.damage(400_000), Updated::Dead(_)));
}

#[test]
fn enemy_touches_circles() {
    let enemy = TestEnemy::spawn(straight_route(), 1);
    assert!(enemy.collides(Vector::new(0, 0), 0));
    assert!(enemy.collides(Vector::new(400, 0), 100));
    assert!(!enemy.collides(Vector::new(401, 0), 100));
    assert!(enemy.collides(Vector::new(300, 400), 200));
    assert!(!enemy.collides(Vector::new(300, 400), 199));
}

#[test]
fn enemy_is_met_by_lines() {
    let enemy = TestEnemy::spawn(straight_route(), 1);
    assert!(enemy.line_collision(Vector::new(-1000, 100), Vector::new(1000, 100)));
    assert!(enemy.line_collision(Vector::new(-1000, 300), Vector::new(1000, 300)));
    assert!(!enemy.line_collision(Vector::new(-1000, 301), Vector::new(1000, 301)));
    assert!(!enemy.line_collision(Vector::new(500, 0), Vector::new(1000, 0)));
    assert!(enemy.line_collision(Vector::new(10, 10), Vector::new(20, 20)));
}

#[test]
fn enemies_are_updated_from_the_last_to_the_first() {
    let short = Route::from_positions_unchecked(vec![Vector::new(0, 0), Vector::new(10, 0)]);
    let enemies = vec![
        TestEnemy::spawn(straight_route(), 0),
        TestEnemy::spawn(short, 0),
        FastEnemy::spawn(straight_route(), 0),
    ];
    let enemies = Enemy::update_all(enemies);
    assert_eq!(enemies.len(), 2);
    assert_eq!(enemies[0].position(), Vector::new(22, 0));
    assert_eq!(enemies[1].position(), Vector::new(20, 0));
}

#[test]
fn enemy_of_a_kind_is_an_enemy() {
    let spawned = TestEnemy::spawn(straight_route(), 0);
    let enemy = Enemy::new(match alive(spawned.update()).damage(1) {
        Updated::Alive(enemy) => match enemy.update() {
            Updated::Alive(enemy) => enemy,
            Updated::Dead(_) => panic!("the enemy is dead"),
        },
        Updated::Dead(_) => panic!("the enemy is dead"),
    }
    .into_kind());
    assert_eq!(enemy.health(), FULL_HEALTH - 1);
    assert_eq!(progress_of(&enemy), 40_000);
}

#[test]
fn projectile_moves_and_hits_the_last_enemy_that_it_touches() {
    let bullet = Bullet::new(Projectile::spawn(Vector::new(0, 0), Vector::new(60, 0)));
    let enemies = vec![enemy_at(100), enemy_at(5000), enemy_at(200)];
    let (updated, enemies) = bullet.update(enemies, Vector::new(38_400, 21_600));
    assert!(matches!(updated, Updated::Dead(_)));
    // the enemies come back in the opposite order; the one at 200 was hit
    assert_eq!(enemies.len(), 3);
    assert_eq!(enemies[0].position(), Vector::new(200, 0));
    assert_eq!(enemies[0].health(), 600_000);
    assert_eq!(enemies[1].health(), FULL_HEALTH);
    assert_eq!(enemies[2].position(), Vector::new(100, 0));
    assert_eq!(enemies[2].health(), FULL_HEALTH);
}

#[test]
fn projectile_that_hits_nothing_flies_on() {
    let bullet = Bullet::new(Projectile::spawn(Vector::new(1000, 1000), Vector::new(0, 60)));
    let (updated, enemies) = bullet.update(vec![enemy_at(100)], Vector::new(38_400, 21_600));
    assert_eq!(enemies.len(), 1);
    assert_eq!(enemies[0].health(), FULL_HEALTH);
    match updated {
        Updated::Alive(bullet) => match bullet.kind() {
            BulletKind::Projectile(projectile) => {
                assert_eq!(projectile.position(), Vector::new(1000, 1060));
                assert_eq!(projectile.radius(), 100);
            }
            BulletKind::Lightning(_) => panic!("the bullet is lightning"),
        },
        Updated::Dead(_) => panic!("the bullet is dead"),
    }
}

#[test]
fn projectile_dies_outside_the_bounds() {
    let bounds = Vector::new(38_400, 21_600);
    let leaving = Bullet::new(Projectile::spawn(Vector::new(0, 500), Vector::new(-101, 0)));
    assert!(matches!(leaving.update(vec![], bounds).0, Updated::Dead(_)));
    let staying = Bullet::new(Projectile::spawn(Vector::new(0, 500), Vector::new(-100, 0)));
    assert!(matches!(staying.update(vec![], bounds).0, Updated::Alive(_)));
    let leaving = Bullet::new(Projectile::spawn(Vector::new(38_400, 500), Vector::new(101, 0)));
    assert!(matches!(leaving.update(vec![], bounds).0, Updated::Dead(_)));
    let leaving = Bullet::new(Projectile::spawn(Vector::new(500, 21_600), Vector::new(0, 101)));
    assert!(matches!(leaving.update(vec![], bounds).0, Updated::Dead(_)));
}

#[test]
fn projectile_kills_a_weak_enemy() {
    let weak = alive(alive(enemy_at(100).damage(400_000)).damage(400_000));
    let bullet = Bullet::new(Projectile::spawn(Vector::new(0, 0), Vector::new(60, 0)));
    let (updated, enemies) = bullet.update(vec![weak], Vector::new(38_400, 21_600));
    assert!(matches!(updated, Updated::Dead(_)));
    assert_eq!(enemies.len(), 0);
}

#[test]
fn lightning_reaches_across_the_screen() {
    let bullet = Lightning::spawn(Vector::new(1000, 1000), Vector::new(1300, 1400));
    match &bullet {
        BulletKind::Lightning(lightning) => {
            assert_eq!(lightning.start(), Vector::new(1000, 1000));
            // three fifths and four fifths of the reach, rounded down
            assert_eq!(
                lightning.end(),
                Vector::new(1000 + 26_434, 1000 + 35_246)
            );
            assert_eq!(LIGHTNING_REACH, 44_058);
        }
        BulletKind::Projectile(_) => panic!("the bullet is a projectile"),
    }
}

#[test]
fn lightning_hits_every_enemy_in_its_way() {
    let bullet = Bullet::new(Lightning::spawn(Vector::new(0, 0), Vector::new(100, 0)));
    let mut behind = Route::from_positions_unchecked(vec![
        Vector::new(-5000, 0),
        Vector::new(-5000, 1000),
    ]);
    let enemies = vec![enemy_at(100), TestEnemy::spawn(behind.clone(), 1), enemy_at(30_000)];
    let (updated, enemies) = bullet.update(enemies, Vector::new(38_400, 21_600));
    assert!(matches!(updated, Updated::Alive(_)));
    assert_eq!(enemies.len(), 3);
    assert_eq!(enemies[0].health(), 800_000);
    assert_eq!(enemies[1].health(), FULL_HEALTH);
    assert_eq!(enemies[2].health(), 800_000);
    behind = straight_route();
    assert_eq!(behind.length(), 1000);
}

#[test]
fn lightning_without_direction_hits_what_stands_on_it() {
    let bullet = Bullet::new(Lightning::spawn(Vector::new(100, 0), Vector::new(100, 0)));
    let (_, enemies) =
        bullet.update(vec![enemy_at(100), enemy_at(5000)], Vector::new(38_400, 21_600));
    assert_eq!(enemies[0].health(), FULL_HEALTH);
    assert_eq!(enemies[1].health(), 800_000);
}

#[test]
fn lightning_lasts_for_its_lifespan() {
    let mut bullet = Bullet::new(Lightning::spawn(Vector::new(0, 0), Vector::new(100, 0)));
    for _ in 0..LIGHTNING_LIFESPAN {
        let (updated, _) = bullet.update(vec![], Vector::new(38_400, 21_600));
        bullet = match updated {
            Updated::Alive(bullet) => bullet,
            Updated::Dead(_) => panic!("the lightning is gone"),
        };
    }
    let enemies = vec![enemy_at(100), enemy_at(200)];
    let (updated, enemies) = bullet.update(enemies, Vector::new(38_400, 21_600));
    assert!(matches!(updated, Updated::Dead(_)));
    // lightning without life leaves the enemies as they are
    assert_eq!(enemies[0].position(), Vector::new(100, 0));
    assert_eq!(enemies[0].health(), FULL_HEALTH);
    assert_eq!(enemies[1].position(), Vector::new(200, 0));
}

#[test]
fn bullets_are_updated_from_the_last_to_the_first() {
    let bounds = Vector::new(38_400, 21_600);
    let bullets = vec![
        Bullet::new(Projectile::spawn(Vector::new(0, 0), Vector::new(60, 0))),
        Bullet::new(Lightning::spawn(Vector::new(0, 0), Vector::new(100, 0))),
        Bullet::new(Projectile::spawn(Vector::new(9000, 9000), Vector::new(60, 0))),
    ];
    let (bullets, enemies) = Bullet::update_all(bullets, vec![enemy_at(100)], bounds);
    // the projectile at the origin hit the enemy and is gone
    assert_eq!(bullets.len(), 2);
    assert!(matches!(bullets[0].kind(), BulletKind::Projectile(_)));
    assert!(matches!(bullets[1].kind(), BulletKind::Lightning(_)));
    assert_eq!(enemies.len(), 1);
    assert_eq!(enemies[0].health(), 400_000);
}

#[test]
fn bullet_kinds_update_themselves() {
    let mut projectile = match Projectile::spawn(Vector::new(0, 0), Vector::new(10, 20)) {
        BulletKind::Projectile(projectile) => projectile,
        BulletKind::Lightning(_) => panic!("the bullet is lightning"),
    };
    let (lasts, enemies) = projectile.update(vec![], Vector::new(38_400, 21_600));
    assert!(lasts);
    assert!(enemies.is_empty());
    assert_eq!(projectile.position(), Vector::new(10, 20));
}

#[test]
fn circular_range_picks_the_first_enemy_that_touches_it() {
    let range = CircularRange::new(Vector::new(0, 0), 1000);
    let enemies = vec![enemy_at(5000), enemy_at(1300), enemy_at(100)];
    let target = range.get_target(&enemies).unwrap();
    assert_eq!(target.position(), Vector::new(1300, 0));
    let far = vec![enemy_at(5000), enemy_at(1301)];
    assert!(range.get_target(&far).is_none());
    assert!(range.get_target(&vec![]).is_none());
}

#[test]
fn circular_range_sees_the_chord() {
    let mut range = CircularRange::new(Vector::new(0, 0), 3000);
    assert_eq!(range.line_intersection(Vector::new(-5000, 0), Vector::new(5000, 0)), 6000);
    assert_eq!(range.line_intersection(Vector::new(0, 0), Vector::new(5000, 0)), 3000);
    assert_eq!(range.line_intersection(Vector::new(-100, 0), Vector::new(300, 0)), 400);
    assert_eq!(range.line_intersection(Vector::new(-5000, 3000), Vector::new(5000, 3000)), 0);
    assert_eq!(range.line_intersection(Vector::new(-5000, 4000), Vector::new(5000, 4000)), 0);
    range.set_position(Vector::new(0, 4000));
    range.set_direction(QUARTER_TURN);
    assert_eq!(range.position(), Vector::new(0, 4000));
    assert_eq!(range.radius(), 3000);
    assert_eq!(range.line_intersection(Vector::new(-5000, 4000), Vector::new(5000, 4000)), 6000);
}

#[test]
fn sector_range_picks_the_first_enemy_that_it_sees() {
    let range = SectorRange::new(Vector::new(0, 0), 4000, 0, QUARTER_TURN);
    let behind = Route::from_positions_unchecked(vec![
        Vector::new(-1000, 0),
        Vector::new(-1000, 1000),
    ]);
    let enemies = vec![enemy_at(9000), TestEnemy::spawn(behind, 1), enemy_at(2000), enemy_at(100)];
    let target = range.get_target(&enemies, &bearing).unwrap();
    assert_eq!(target.position(), Vector::new(2000, 0));
    let turned = SectorRange::new(Vector::new(0, 0), 4000, HALF_TURN, QUARTER_TURN);
    let target = turned.get_target(&enemies, &bearing).unwrap();
    assert_eq!(target.position(), Vector::new(-1000, 0));
}

#[test]
fn sector_range_sees_between_its_edges() {
    let mut range = SectorRange::new(Vector::new(0, 0), 4000, 0, QUARTER_TURN);
    let a = Vector::new(2000, -5000);
    let b = Vector::new(2000, 5000);
    assert_eq!(range.line_intersection(a, b, &bearing, &polar), 4000);
    range.set_direction(HALF_TURN);
    assert_eq!(range.direction(), HALF_TURN);
    assert_eq!(range.line_intersection(a, b, &bearing, &polar), 0);
    range.set_position(Vector::new(4000, 0));
    assert_eq!(range.position(), Vector::new(4000, 0));
    assert_eq!(range.radius(), 4000);
    assert_eq!(range.fov(), QUARTER_TURN);
    assert_eq!(range.line_intersection(a, b, &bearing, &polar), 4000);
}

#[test]
fn range_of_either_kind() {
    let mut range = TowerKind::Sector.new_range(Vector::new(1, 2), 7);
    range.set_position(Vector::new(3, 4));
    range.set_direction(9);
    assert_eq!(range.position(), Vector::new(3, 4));
    match &range {
        Range::Sector(sector) => {
            assert_eq!(sector.direction(), 9);
            assert_eq!(sector.radius(), 4000);
        }
        Range::Circular(_) => panic!("the range is a circle"),
    }
    let mut range = TowerKind::Test.new_range(Vector::new(1, 2), 7);
    range.set_direction(9);
    range.set_position(Vector::new(5, 6));
    match &range {
        Range::Circular(circle) => {
            assert_eq!(circle.position(), Vector::new(5, 6));
            assert_eq!(circle.radius(), 3000);
        }
        Range::Sector(_) => panic!("the range is a sector"),
    }
}

#[test]
fn test_tower_shoots_lightning_when_it_is_ready() {
    let bounds = Vector::new(38_400, 21_600);
    let mut tower = TestTower::new(Vector::new(5000, 5000));
    assert_eq!(TestTower::price(), 25);
    assert_eq!(TestTower::cooldown(), 60);
    assert_eq!(tower.time_until_shot(), 60);
    assert_eq!(tower.position(), Vector::new(5000, 5000));
    assert_eq!(tower.radius(), 200);
    assert_eq!(tower.range().radius(), 3000);
    let target = || {
        let route = Route::from_positions_unchecked(vec![
            Vector::new(5000, 6000),
            Vector::new(5000, 30_000),
        ]);
        vec![TestEnemy::spawn(route, 0)]
    };
    for left in (0..60).rev() {
        let enemies = tower.update(target(), bounds);
        assert_eq!(enemies[0].health(), FULL_HEALTH);
        assert_eq!(tower.time_until_shot(), left);
        assert_eq!(tower.bullets().len(), 0);
    }
    let enemies = tower.update(target(), bounds);
    assert_eq!(tower.time_until_shot(), 60);
    assert_eq!(tower.bullets().len(), 1);
    assert_eq!(enemies[0].health(), 800_000);
}

#[test]
fn test_tower_waits_for_a_target() {
    let bounds = Vector::new(38_400, 21_600);
    let mut tower = TestTower::new(Vector::new(5000, 5000));
    for _ in 0..100 {
        let enemies = tower.update(vec![enemy_at(20_000)], bounds);
        assert_eq!(enemies.len(), 1);
    }
    assert_eq!(tower.time_until_shot(), 0);
    assert_eq!(tower.bullets().len(), 0);
}

#[test]
fn sector_tower_shoots_projectiles_at_what_it_sees() {
    let bounds = Vector::new(38_400, 21_600);
    let mut tower = SectorTower::new(Vector::new(5000, 5000), 0);
    assert_eq!(SectorTower::price(), 15);
    assert_eq!(SectorTower::cooldown(), 20);
    assert_eq!(tower.range().direction(), 0);
    assert_eq!(tower.range().fov(), QUARTER_TURN);
    assert_eq!(tower.radius(), 200);
    assert_eq!(tower.position(), Vector::new(5000, 5000));
    let target = || {
        let route = Route::from_positions_unchecked(vec![
            Vector::new(5600, 5000),
            Vector::new(5600, 30_000),
        ]);
        vec![TestEnemy::spawn(route, 0)]
    };
    for _ in 0..20 {
        tower.update(target(), bounds, &bearing, &aim);
    }
    assert_eq!(tower.time_until_shot(), 0);
    // the projectile is shot and moves 60 units toward the enemy, which it
    // does not touch yet: 600 - 60 > 300 + 100
    let enemies = tower.update(target(), bounds, &bearing, &aim);
    assert_eq!(tower.time_until_shot(), 20);
    assert_eq!(tower.bullets().len(), 1);
    assert_eq!(enemies[0].health(), FULL_HEALTH);
    tower.update(target(), bounds, &bearing, &aim);
    tower.update(target(), bounds, &bearing, &aim);
    // 600 - 4 * 60 <= 400
    let enemies = tower.update(target(), bounds, &bearing, &aim);
    assert_eq!(enemies[0].health(), 600_000);
    assert_eq!(tower.bullets().len(), 0);
}

#[test]
fn sector_tower_does_not_shoot_behind_itself() {
    let bounds = Vector::new(38_400, 21_600);
    let mut tower = SectorTower::new(Vector::new(5000, 5000), 0);
    let target = || {
        let route = Route::from_positions_unchecked(vec![
            Vector::new(4000, 5000),
            Vector::new(4000, 30_000),
        ]);
        vec![TestEnemy::spawn(route, 0)]
    };
    for _ in 0..50 {
        tower.update(target(), bounds, &bearing, &aim);
    }
    assert_eq!(tower.bullets().len(), 0);
    assert_eq!(tower.time_until_shot(), 0);
}

#[test]
fn tower_of_either_kind() {
    let bounds = Vector::new(38_400, 21_600);
    let mut tower = TowerKind::Test.spawn(Vector::new(5000, 5000), 0);
    assert!(matches!(tower, Tower::Test(_)));
    assert_eq!(tower.position(), Vector::new(5000, 5000));
    assert_eq!(tower.radius(), 200);
    assert_eq!(tower.time_until_shot(), 60);
    tower.update(vec![], bounds, &bearing, &aim);
    assert_eq!(tower.time_until_shot(), 59);
    assert_eq!(tower.bullets().len(), 0);
    assert_eq!(
        tower.visible_area(Vector::new(0, 5000), Vector::new(10_000, 5000), &bearing, &polar),
        6000
    );
    let tower = TowerKind::Sector.spawn(Vector::new(5000, 5000), 0);
    assert!(matches!(tower, Tower::Sector(_)));
    assert_eq!(tower.time_until_shot(), 20);
    assert_eq!(
        tower.visible_area(Vector::new(7000, 0), Vector::new(7000, 10_000), &bearing, &polar),
        4000
    );
    assert_eq!(TowerKind::Test.price(), 25);
    assert_eq!(TowerKind::Sector.price(), 15);
}

#[test]
fn links_under_towers_weigh_more() {
    let a = Vector::new(0, 5000);
    let b = Vector::new(10_000, 5000);
    assert_eq!(obstructed_weight(&vec![], a, b, &bearing, &polar), 10_001);
    let towers = vec![TowerKind::Test.spawn(Vector::new(5000, 5000), 0)];
    assert_eq!(obstructed_weight(&towers, a, b, &bearing, &polar), 10_001 + 5 * 6000);
    let towers = vec![
        TowerKind::Test.spawn(Vector::new(5000, 5000), 0),
        TowerKind::Test.spawn(Vector::new(5000, 9000), 0),
        TowerKind::Test.spawn(Vector::new(0, 5000), 0),
    ];
    assert_eq!(obstructed_weight(&towers, a, b, &bearing, &polar), 10_001 + 5 * (6000 + 3000));
}

fn small_web() -> Web {
    Web::new(
        vec![Vector::new(0, 0), Vector::new(1000, 0)],
        vec![(0, 1)],
        0,
        1,
        |a, b| distance_between(a, b),
    )
    .unwrap()
}

#[test]
fn round_begins_with_its_numbers() {
    let round = Round::new(1);
    assert_eq!(round.round_number(), 1);
    assert!(!round.complete());
    assert_eq!(round.enemies().len(), 0);
    assert_eq!(Round::time_between_enemies(0), 120);
    assert_eq!(Round::time_between_enemies(1), 60);
    assert_eq!(Round::time_between_enemies(2), 40);
    assert_eq!(Round::time_between_enemies(119), 1);
    assert_eq!(Round::time_between_enemies(120), 0);
}

#[test]
fn round_spawns_an_enemy_when_the_time_is_up() {
    let web = small_web();
    let mut towers = vec![];
    let mut round = Round::new(1);
    for _ in 0..59 {
        let outcome = round.update_with(&web, &mut towers, &bearing, &aim, 0);
        assert_eq!(outcome, (0, 0));
        assert_eq!(round.enemies().len(), 0);
    }
    round.update_with(&web, &mut towers, &bearing, &aim, 0);
    assert_eq!(round.enemies().len(), 1);
    // the enemy has moved for a frame already
    assert_eq!(round.enemies()[0].position(), Vector::new(26, 0));
    assert!(matches!(round.enemies()[0].kind(), EnemyKind::Test(_)));
}

#[test]
fn dice_decide_the_kind_of_enemy() {
    let web = small_web();
    let mut towers = vec![];
    for (roll, fast) in [
        (0, false),
        (FAST_ENEMY_ROLL - 1, false),
        (FAST_ENEMY_ROLL, true),
        (u32::MAX, true),
    ] {
        let mut round = Round::new(1);
        for _ in 0..60 {
            round.update_with(&web, &mut towers, &bearing, &aim, roll);
        }
        assert_eq!(matches!(round.enemies()[0].kind(), EnemyKind::Fast(_)), fast);
    }
}

#[test]
fn round_counts_the_lives_that_are_lost() {
    let web = small_web();
    let mut towers = vec![];
    let mut round = Round::new(1);
    let mut lost = 0;
    let mut killed = 0;
    // 17 enemies, one every 60 frames, each gone in the 39th frame of its way
    for _ in 0..(17 * 60 + 38) {
        assert!(!round.complete());
        let outcome = round.update_with(&web, &mut towers, &bearing, &aim, 0);
        lost += outcome.0;
        killed += outcome.1;
    }
    assert_eq!(lost, 17);
    assert_eq!(killed, 0);
    assert!(round.complete());
    round.next();
    assert_eq!(round.round_number(), 2);
    assert!(!round.complete());
}

#[test]
fn round_counts_the_enemies_that_towers_kill() {
    let web = Web::new(
        vec![Vector::new(0, 5000), Vector::new(30_000, 5000)],
        vec![(0, 1)],
        0,
        1,
        |a, b| distance_between(a, b),
    )
    .unwrap();
    let mut towers = vec![
        TowerKind::Test.spawn(Vector::new(5000, 5200), 0),
        TowerKind::Test.spawn(Vector::new(12_000, 5200), 0),
        TowerKind::Test.spawn(Vector::new(19_000, 5200), 0),
    ];
    let mut round = Round::new(1);
    let mut lost = 0;
    let mut killed = 0;
    for _ in 0..20_000 {
        if round.complete() {
            break;
        }
        let outcome = round.update(&web, &mut towers, &bearing, &aim);
        lost += outcome.0;
        killed += outcome.1;
    }
    assert!(round.complete());
    assert_eq!(lost + killed, 17);
    assert!(killed > 0);
}

#[test]
fn game_begins_in_the_menu() {
    let state = GameState::new();
    assert_eq!(state.mode(), GameMode::MainMenu);
    assert_eq!(state.lives(), STARTING_LIVES);
    assert_eq!(state.score(), 0);
    assert_eq!(state.money(), STARTING_MONEY);
    assert_eq!(state.towers().len(), 0);
    assert_eq!(state.hover_position(), None);
    assert_eq!(state.tower_placement_direction(), 0);
    assert!(state.tower_placement_range().is_none());
    assert_eq!(state.round().round_number(), 1);
    assert_eq!(
        state.path().route(),
        vec![Vector::new(4200, 200), Vector::new(7000, 4000), Vector::new(14_000, 2000)]
    );
}

#[test]
fn game_stands_still_in_the_menu() {
    let mut state = GameState::new();
    for _ in 0..200 {
        assert_eq!(state.update(&bearing, &aim), None);
    }
    assert_eq!(state.round().enemies().len(), 0);
    assert_eq!(state.lives(), STARTING_LIVES);
}

#[test]
fn game_is_over_when_the_lives_are_lost() {
    let mut state = GameState::new();
    state.set_mode(GameMode::Play);
    let mut frames = 0;
    let final_score = loop {
        frames += 1;
        assert!(frames < 5000);
        assert!(state.lives() > 0);
        if let Some(score) = state.update(&bearing, &aim) {
            break score;
        }
    };
    assert_eq!(final_score, 0);
    // the fifth enemy spawns in frame 300 on a route of 12000 units, and is
    // gone in the 414th frame of its way if it is fast, in the 462nd if not
    assert!(300 + 413 <= frames && frames <= 300 + 461);
    assert_eq!(state.mode(), GameMode::MainMenu);
    assert_eq!(state.lives(), STARTING_LIVES);
    assert_eq!(state.money(), STARTING_MONEY);
    assert_eq!(state.round().round_number(), 1);
    assert_eq!(state.round().enemies().len(), 0);
}

#[test]
fn tower_is_shown_while_it_is_placed() {
    let mut state = GameState::new();
    state.rotate_placing(true);
    assert_eq!(state.tower_placement_direction(), 18_000);
    state.start_placing(TowerKind::Sector, Vector::new(200, 2000));
    assert_eq!(state.hover_position(), Some(Vector::new(200, 2000)));
    state.move_placing(Vector::new(9000, 9000));
    state.rotate_placing(false);
    state.rotate_placing(false);
    assert_eq!(state.hover_position(), Some(Vector::new(9000, 9000)));
    assert_eq!(state.tower_placement_direction(), -18_000);
    match state.tower_placement_range() {
        Some(Range::Sector(range)) => {
            assert_eq!(range.position(), Vector::new(9000, 9000));
            assert_eq!(range.direction(), -18_000);
        }
        _ => panic!("no sector is shown"),
    }
}

#[test]
fn direction_of_a_tower_goes_round() {
    let mut state = GameState::new();
    for _ in 0..71 {
        state.rotate_placing(true);
    }
    assert_eq!(state.tower_placement_direction(), 71 * 18_000);
    state.rotate_placing(true);
    assert_eq!(state.tower_placement_direction(), 0);
    state.rotate_placing(false);
    assert_eq!(state.tower_placement_direction(), -18_000);
    for _ in 0..71 {
        state.rotate_placing(false);
    }
    assert_eq!(state.tower_placement_direction(), 0);
}

/// The cost of every way from the first point of the game's web to the
/// second that visits no point twice, with the points that it visits.
fn ways_across(state: &GameState) -> Vec<(u64, Vec<Vector>)> {
    let points = state.path().points();
    let mut ways = Vec::new();
    let mut stack = vec![(vec![0usize], 0u64)];
    while let Some((walk, cost)) = stack.pop() {
        let here = *walk.last().unwrap();
        if here == 1 {
            ways.push((cost, walk.iter().map(|&i| *points[i].position()).collect()));
            continue;
        }
        for next in points[here].connections() {
            if !walk.contains(&next.0) {
                let weight = obstructed_weight(
                    state.towers(),
                    *points[here].position(),
                    *points[next.0].position(),
                    &bearing,
                    &polar,
                );
                let mut longer = walk.clone();
                longer.push(next.0);
                stack.push((longer, cost + weight));
            }
        }
    }
    ways
}

#[test]
fn tower_on_the_best_route_sends_the_enemies_another_way() {
    let mut state = GameState::new();
    let before = state.path().route();
    state.start_placing(TowerKind::Test, Vector::new(200, 4000));
    state.move_placing(Vector::new(9800, 2600));
    assert!(state.finish_placing(TowerKind::Test, Vector::new(9800, 2600), &bearing, &polar));
    assert_eq!(state.money(), STARTING_MONEY - 25);
    assert_eq!(state.towers().len(), 1);
    assert_eq!(state.towers()[0].position(), Vector::new(9800, 2600));
    assert_eq!(state.hover_position(), None);
    assert!(state.tower_placement_range().is_none());
    let after = state.path().route();
    assert_ne!(before, after);
    let ways = ways_across(&state);
    let cheapest = ways.iter().map(|way| way.0).min().unwrap();
    assert!(ways.contains(&(cheapest, after)));
}

#[test]
fn best_route_is_the_cheapest_wherever_a_tower_stands() {
    let mut changed = 0;
    for x in (3000..38_000).step_by(2500) {
        for y in (500..21_000).step_by(2500) {
            for kind in [TowerKind::Test, TowerKind::Sector] {
                let mut state = GameState::new();
                let before = state.path().route();
                state.rotate_placing(x % 2 == 0);
                assert!(state.finish_placing(kind, Vector::new(x, y), &bearing, &polar));
                let after = state.path().route();
                if after != before {
                    changed += 1;
                }
                let ways = ways_across(&state);
                let cheapest = ways.iter().map(|way| way.0).min().unwrap();
                let found = ways.iter().find(|way| way.1 == after).unwrap();
                assert_eq!(found.0, cheapest);
            }
        }
    }
    assert!(changed > 0);
}

#[test]
fn tower_that_costs_too_much_is_not_placed() {
    let mut state = GameState::new();
    assert!(state.finish_placing(TowerKind::Sector, Vector::new(9000, 9000), &bearing, &polar));
    assert_eq!(state.money(), 15);
    assert!(state.finish_placing(TowerKind::Sector, Vector::new(9000, 12_000), &bearing, &polar));
    assert_eq!(state.money(), 0);
    assert!(!state.finish_placing(TowerKind::Sector, Vector::new(9000, 15_000), &bearing, &polar));
    assert_eq!(state.towers().len(), 2);
    let mut state = GameState::new();
    assert!(state.finish_placing(TowerKind::Test, Vector::new(9000, 9000), &bearing, &polar));
    assert!(!state.finish_placing(TowerKind::Test, Vector::new(9000, 12_000), &bearing, &polar));
    assert_eq!(state.money(), 5);
}

#[test]
fn tower_beside_the_screen_is_not_placed() {
    for position in [
        Vector::new(2599, 9000),
        Vector::new(38_201, 9000),
        Vector::new(9000, 199),
        Vector::new(9000, 21_400),
    ] {
        let mut state = GameState::new();
        state.start_placing(TowerKind::Sector, position);
        assert!(!state.finish_placing(TowerKind::Sector, position, &bearing, &polar));
        assert_eq!(state.money(), STARTING_MONEY);
        assert_eq!(state.towers().len(), 0);
        assert_eq!(state.hover_position(), None);
    }
    for position in [
        Vector::new(2600, 200),
        Vector::new(38_200, 21_399),
    ] {
        let mut state = GameState::new();
        assert!(state.finish_placing(TowerKind::Sector, position, &bearing, &polar));
    }
}

#[test]
fn towers_earn_score_and_money() {
    let mut state = GameState::new();
    assert!(state.finish_placing(TowerKind::Test, Vector::new(5600, 2100), &bearing, &polar));
    state.set_mode(GameMode::Play);
    let mut best = 0;
    let mut frames = 0;
    loop {
        frames += 1;
        assert!(frames < 100_000);
        match state.update(&bearing, &aim) {
            Some(score) => {
                assert!(score >= best);
                best = score;
                break;
            }
            None => {
                assert!(state.score() >= best);
                best = state.score();
                assert_eq!(state.money(), 5 + 2 * state.score());
            }
        }
    }
    assert!(best > 0);
}
