//! The state of a game: the web, the towers on it, the round that is played,
//! and what the player has.

use crate::bullet::in_launch_range;
use crate::collisions::{all_in_reach, angle_in_range, in_reach};
use crate::graph::lemma_covering_weights_are_consistent;
use crate::path::{follows_pairs, Web};
use crate::pathfind::{names_pair, NodeIndex};
use crate::rounds::{all_towers_wf, round_step, Round, RoundState, LAST_ROUND};
use crate::tower::{
    tower_sees, Range, SectorTower, SectorView, TestTower, Tower, SECTOR_TOWER_FOV,
    SECTOR_TOWER_RANGE, TEST_TOWER_RANGE,
};
use crate::vector::{distance, distance_between, Angle, Vector, FULL_TURN};
use crate::{GameMode, STARTING_LIVES};
use vstd::prelude::*;

verus! {

/// How much dearer each unit of a link is that a tower sees.
pub const OBSTRUCTION_FACTOR: u64 = 5;

/// The money with which the player starts the game.
pub const STARTING_MONEY: usize = 30;

/// The amount by which the direction of a tower changes when the user
/// rotates the tower that they are placing: five degrees.
pub const TOWER_PLACEMENT_DIRECTION_CHANGE_SPEED: Angle = 18_000;

/// The kinds of tower that the player can place.
#[derive(Debug, Clone, Copy, PartialEq, Eq, Structural)]
pub enum TowerKind {
    /// A tower with a circular range, which shoots lightning.
    Test,
    /// A tower with a range in the shape of a sector, which shoots
    /// projectiles.
    Sector,
}

impl TowerKind {
    /// This is how much a tower of this kind costs (money)
    pub open spec fn spec_price(self) -> int {
        match self {
            TowerKind::Test => 25,
            TowerKind::Sector => 15,
        }
    }

    /// This is how much a tower of this kind costs (money)
    pub fn price(self) -> (price: usize)
        ensures
            price == self.spec_price(),
    {
        match self {
            TowerKind::Test => TestTower::price(),
            TowerKind::Sector => SectorTower::price(),
        }
    }

    /// Spawn a new tower at a given position, facing a given direction
    pub fn spawn(self, position: Vector, direction: Angle) -> (tower: Tower)
        requires
            in_launch_range(position),
            angle_in_range(direction),
        ensures
            tower.wf(),
            tower@.position == position,
            tower@.bullets.len() == 0,
            match (self, tower) {
                (TowerKind::Test, Tower::Test(made)) => made@.time_to_next_shot == 60,
                (TowerKind::Sector, Tower::Sector(made)) => made@.time_to_next_shot == 20
                    && made.sector() == (SectorView {
                    position,
                    radius: SECTOR_TOWER_RANGE,
                    direction,
                    fov: SECTOR_TOWER_FOV,
                }),
                _ => false,
            },
    {
        match self {
            TowerKind::Test => Tower::Test(TestTower::new(position)),
            TowerKind::Sector => Tower::Sector(SectorTower::new(position, direction)),
        }
    }

    /// Returns a new range which can be used to show where a tower of this
    /// kind would see
    pub fn new_range(self, position: Vector, direction: Angle) -> (range: Range)
        ensures
            range.spec_position() == position,
            match (self, range) {
                (TowerKind::Test, Range::Circular(made)) => made.spec_radius() == TEST_TOWER_RANGE,
                (TowerKind::Sector, Range::Sector(made)) => made@ == (SectorView {
                    position,
                    radius: SECTOR_TOWER_RANGE,
                    direction,
                    fov: SECTOR_TOWER_FOV,
                }),
                _ => false,
            },
    {
        match self {
            TowerKind::Test => Range::Circular(TestTower::new_range(position)),
            TowerKind::Sector => Range::Sector(SectorTower::new_range(position, direction)),
        }
    }
}

/// The sum of the first `count` of `lengths`.
pub open spec fn total(lengths: Seq<int>, count: int) -> int
    decreases count,
{
    if count <= 0 {
        0
    } else {
        total(lengths, count - 1) + lengths[count - 1]
    }
}

/// The weight of a link of length `base` of which the towers see `seen`:
/// the length, rounded up, and five times what is seen; the largest weight
/// where that is more.
pub open spec fn obstructed(base: int, seen: int) -> int {
    if base + 1 + OBSTRUCTION_FACTOR * seen > u64::MAX {
        u64::MAX as int
    } else {
        base + 1 + OBSTRUCTION_FACTOR * seen
    }
}

/// Whether `weight` is the weight of the link from `a` to `b` among the
/// towers: `lengths` tells how much of the link each tower sees.
pub open spec fn weighed<B: Fn(Vector) -> Angle, P: Fn(Angle, u32) -> Vector>(
    towers: Seq<Tower>,
    a: Vector,
    b: Vector,
    bearing_of: B,
    from_polar: P,
    lengths: Seq<int>,
    weight: u64,
) -> bool {
    &&& lengths.len() == towers.len()
    &&& forall|i: int|
        0 <= i < towers.len() ==> tower_sees(
            towers[i],
            a,
            b,
            bearing_of,
            from_polar,
            #[trigger] lengths[i],
        )
    &&& weight == obstructed(distance(a, b), total(lengths, lengths.len() as int))
}

/// Whether `weight` is the weight of the link from `a` to `b` among the
/// towers.
pub open spec fn weighs<B: Fn(Vector) -> Angle, P: Fn(Angle, u32) -> Vector>(
    towers: Seq<Tower>,
    a: Vector,
    b: Vector,
    bearing_of: B,
    from_polar: P,
    weight: u64,
) -> bool {
    exists|lengths: Seq<int>| #[trigger]
        weighed(towers, a, b, bearing_of, from_polar, lengths, weight)
}

/// The sum of lengths of which none is negative is not negative, and grows
/// with each.
proof fn lemma_total_push(lengths: Seq<int>, length: int)
    ensures
        total(lengths.push(length), lengths.len() as int + 1) == total(lengths, lengths.len() as int)
            + length,
{
    lemma_total_same(lengths, lengths.push(length), lengths.len() as int);
}

/// The sum of the first lengths does not depend on those after them.
proof fn lemma_total_same(first: Seq<int>, second: Seq<int>, count: int)
    requires
        count <= first.len(),
        count <= second.len(),
        forall|i: int| 0 <= i < count ==> first[i] == second[i],
    ensures
        total(first, count) == total(second, count),
    decreases count,
{
    if count > 0 {
        lemma_total_same(first, second, count - 1);
    }
}

/// Calculates the weight of the link from `a` to `b` among the towers: its
/// length, rounded up, and five times the length of it that each tower sees.
pub fn obstructed_weight<B: Fn(Vector) -> Angle, P: Fn(Angle, u32) -> Vector>(
    towers: &Vec<Tower>,
    a: Vector,
    b: Vector,
    bearing_of: &B,
    from_polar: &P,
) -> (weight: u64)
    requires
        all_towers_wf(towers@),
        in_reach(a),
        in_reach(b),
        forall|v: Vector| bearing_of.requires((v,)),
        forall|angle: Angle, length: u32| from_polar.requires((angle, length)),
        forall|angle: Angle, length: u32, edge: Vector|
            from_polar.ensures((angle, length), edge) ==> -length <= edge.x <= length && -length
                <= edge.y <= length,
    ensures
        weighs(towers@, a, b, bearing_of, from_polar, weight),
        weight >= distance(a, b) + 1,
        towers@.len() == 0 ==> weight == distance(a, b) + 1,
{
    let base = distance_between(a, b);
    let mut seen: u128 = 0;
    let ghost mut lengths: Seq<int> = Seq::empty();
    let mut i: usize = 0;
    while i < towers.len()
        invariant
            i <= towers@.len(),
            all_towers_wf(towers@),
            in_reach(a),
            in_reach(b),
            forall|v: Vector| bearing_of.requires((v,)),
            forall|angle: Angle, length: u32| from_polar.requires((angle, length)),
            forall|angle: Angle, length: u32, edge: Vector|
                from_polar.ensures((angle, length), edge) ==> -length <= edge.x <= length
                    && -length <= edge.y <= length,
            lengths.len() == i,
            seen == total(lengths, i as int),
            0 <= seen <= i * 0x1_6a09_e667,
            forall|k: int|
                0 <= k < i ==> tower_sees(
                    towers@[k],
                    a,
                    b,
                    bearing_of,
                    from_polar,
                    #[trigger] lengths[k],
                ),
        decreases towers@.len() - i,
    {
        assert(towers@[i as int].wf());
        let length = towers[i].visible_area(a, b, bearing_of, from_polar);
        proof {
            lemma_total_push(lengths, length as int);
            let before = lengths;
            lengths = lengths.push(length as int);
            assert forall|k: int| 0 <= k < i + 1 implies tower_sees(
                towers@[k],
                a,
                b,
                bearing_of,
                from_polar,
                #[trigger] lengths[k],
            ) by {
                if k < i {
                    assert(lengths[k] == before[k]);
                }
            }
            assert((i + 1) * 0x1_6a09_e667 <= 0xffff_ffff_ffff_ffff * 0x1_6a09_e667)
                by (nonlinear_arith)
                requires
                    i + 1 <= 0xffff_ffff_ffff_ffff,
            ;
        }
        seen = seen + length as u128;
        i += 1;
    }
    proof {
        assert(i <= usize::MAX);
        assert(5 * seen + 0x2_0000_0000 <= 0xffff_ffff_ffff_ffff_ffff_ffff_ffff_ffff)
            by (nonlinear_arith)
            requires
                0 <= seen <= i * 0x1_6a09_e667,
                i <= 0xffff_ffff_ffff_ffff,
        ;
    }
    let obstruction: u128 = OBSTRUCTION_FACTOR as u128 * seen;
    let exact: u128 = base as u128 + 1 + obstruction;
    let weight: u64 = if exact > u64::MAX as u128 {
        u64::MAX
    } else {
        exact as u64
    };
    proof {
        assert(weighed(towers@, a, b, bearing_of, from_polar, lengths, weight));
    }
    weight
}

/// Used to store information about the current state of the game
#[derive(Debug)]
pub struct GameState {
    path: Web,
    towers: Vec<Tower>,
    hover_position: Option<Vector>,
    mode: GameMode,
    round: Round,
    lives: usize,
    score: usize,
    money: usize,
    tower_placement_direction: Angle,
    tower_placement_range: Option<Range>,
}

/// Whether a tower may stand at `position`: on the screen, beside the menu.
pub open spec fn can_stand_at(position: Vector) -> bool {
    2_600 <= position.x <= 38_200 && 200 <= position.y < 21_400
}

/// The lives that are left of `lives` once `lost` are lost.
pub open spec fn lives_after(lives: int, lost: int) -> int {
    if lost >= lives {
        0
    } else {
        lives - lost
    }
}

/// The largest of a count that fits, where `count` does not.
pub open spec fn capped(count: int) -> int {
    if count > usize::MAX {
        usize::MAX as int
    } else {
        count
    }
}

impl GameState {
    /// The web of points on which the enemies move.
    pub closed spec fn spec_path(&self) -> Web {
        self.path
    }

    /// The towers that the player has placed.
    pub closed spec fn spec_towers(&self) -> Seq<Tower> {
        self.towers@
    }

    /// How the round stands.
    pub closed spec fn spec_round(&self) -> RoundState {
        self.round@
    }

    /// The screen with which the user interacts.
    pub closed spec fn spec_mode(&self) -> GameMode {
        self.mode
    }

    /// The lives that the player has left.
    pub closed spec fn spec_lives(&self) -> int {
        self.lives as int
    }

    /// The enemies that the player has killed.
    pub closed spec fn spec_score(&self) -> int {
        self.score as int
    }

    /// The money that the player has.
    pub closed spec fn spec_money(&self) -> int {
        self.money as int
    }

    /// Where the tower is that the player is placing.
    pub closed spec fn spec_hover_position(&self) -> Option<Vector> {
        self.hover_position
    }

    /// The direction in which the tower faces that the player is placing.
    pub closed spec fn spec_direction(&self) -> Angle {
        self.tower_placement_direction
    }

    /// The range of the tower that the player is placing.
    pub closed spec fn spec_range(&self) -> Option<Range> {
        self.tower_placement_range
    }

    /// The web has a best route, which is the cheapest there is, from a start
    /// to another point; the web's points are near enough to the origin for
    /// collision tests; and the towers and the round are well-formed.
    pub closed spec fn wf(&self) -> bool {
        &&& self.path.wf()
        &&& self.path.best_route() is Some
        &&& self.path.start() != self.path.end()
        &&& all_in_reach(self.path.graph().positions)
        &&& self.path.graph().is_cheapest_route(
            self.path.start(),
            self.path.end(),
            self.path.best_route()->0,
        )
        &&& all_towers_wf(self.towers@)
        &&& self.round.wf()
        &&& -FULL_TURN < self.tower_placement_direction < FULL_TURN
    }

    /// What a well-formed game promises of its web.
    pub proof fn lemma_wf(&self)
        requires
            self.wf(),
        ensures
            self.spec_path().wf(),
            self.spec_path().best_route() is Some,
            self.spec_path().graph().is_cheapest_route(
                self.spec_path().start(),
                self.spec_path().end(),
                self.spec_path().best_route()->0,
            ),
            all_towers_wf(self.spec_towers()),
    {
    }

    /// Whether the game stands as it does when it begins: in the main menu,
    /// before the first round, without towers, and with what the player has
    /// at the start.
    pub open spec fn is_new(&self) -> bool {
        &&& self.spec_mode() == GameMode::MainMenu
        &&& self.spec_towers().len() == 0
        &&& self.spec_hover_position() is None
        &&& self.spec_round() == (RoundState {
            enemies_left: 17,
            round_number: 1,
            time_to_next_shot: 60,
            enemies: Seq::empty(),
        })
        &&& self.spec_lives() == STARTING_LIVES
        &&& self.spec_score() == 0
        &&& self.spec_money() == STARTING_MONEY
        &&& self.spec_direction() == 0
        &&& self.spec_range() is None
        &&& self.spec_path().start() == NodeIndex(0)
        &&& self.spec_path().end() == NodeIndex(1)
        &&& self.spec_path().graph().positions == seq![
            Vector { x: 4_200, y: 200 },
            Vector { x: 14_000, y: 2_000 },
            Vector { x: 7_000, y: 4_000 },
            Vector { x: 20_000, y: 20_000 },
            Vector { x: 7_400, y: 16_000 },
        ]
    }

    /// Inititialises the game at round 1, with no towers placed and a score
    /// of 0, and the correct number of lives, and 30 money
    pub fn new() -> (state: Self)
        ensures
            state.wf(),
            state.is_new(),
    {
        let positions: Vec<Vector> = vec![
            Vector { x: 4_200, y: 200 },
            Vector { x: 14_000, y: 2_000 },
            Vector { x: 7_000, y: 4_000 },
            Vector { x: 20_000, y: 20_000 },
            Vector { x: 7_400, y: 16_000 },
        ];
        let connections: Vec<(usize, usize)> = vec![
            (1, 3),
            (3, 1),
            (0, 2),
            (2, 0),
            (1, 2),
            (2, 1),
            (0, 4),
            (4, 0),
            (1, 4),
            (4, 1),
            (4, 2),
            (2, 4),
            (4, 3),
            (3, 4),
        ];
        let ghost places = positions@;
        let ghost pairs = connections@;
        proof {
            let walk = seq![NodeIndex(0), NodeIndex(2), NodeIndex(1)];
            assert(pairs[2] == (0usize, 2usize));
            assert(pairs[5] == (2usize, 1usize));
            assert(names_pair(pairs, walk[0], walk[1]));
            assert(names_pair(pairs, walk[1], walk[2]));
            assert(follows_pairs(pairs, 5, walk) && walk[0] == NodeIndex(0) && walk[walk.len() - 1]
                == NodeIndex(1));
        }
        let weigh = |a: Vector, b: Vector| -> (weight: u64)
            ensures
                weight == distance(a, b) + 1,
            { distance_between(a, b) + 1 };
        let path = Web::new(positions, connections, 0, 1, weigh).unwrap();
        proof {
            path.lemma_wf();
            let graph = path.graph();
            assert forall|from: NodeIndex, to: NodeIndex| #[trigger]
                graph.has_link(from, to) implies graph.weight(from, to) >= distance(
                graph.positions[from.0 as int],
                graph.positions[to.0 as int],
            ) + 1 by {
                assert(weigh.ensures(
                    (places[from.0 as int], places[to.0 as int]),
                    graph.weights[(from, to)],
                ));
            }
            lemma_covering_weights_are_consistent(graph, NodeIndex(1));
        }
        let state = Self {
            path,
            towers: Vec::new(),
            hover_position: None,
            mode: GameMode::MainMenu,
            round: Round::new(1),
            lives: STARTING_LIVES,
            score: 0,
            money: STARTING_MONEY,
            tower_placement_direction: 0,
            tower_placement_range: None,
        };
        state
    }

    /// The web of points on which the enemies move.
    pub fn path(&self) -> (path: &Web)
        ensures
            *path == self.spec_path(),
    {
        &self.path
    }

    /// The towers that the player has placed.
    pub fn towers(&self) -> (towers: &Vec<Tower>)
        ensures
            towers@ == self.spec_towers(),
    {
        &self.towers
    }

    /// The round that is played.
    pub fn round(&self) -> (round: &Round)
        ensures
            round@ == self.spec_round(),
    {
        &self.round
    }

    /// The screen with which the user interacts.
    pub fn mode(&self) -> (mode: GameMode)
        ensures
            mode == self.spec_mode(),
    {
        self.mode
    }

    /// Shows the user another screen.
    pub fn set_mode(&mut self, mode: GameMode)
        requires
            old(self).wf(),
        ensures
            final(self).wf(),
            final(self).spec_mode() == mode,
            final(self).spec_path() == old(self).spec_path(),
            final(self).spec_towers() == old(self).spec_towers(),
            final(self).spec_round() == old(self).spec_round(),
            final(self).spec_lives() == old(self).spec_lives(),
            final(self).spec_score() == old(self).spec_score(),
            final(self).spec_money() == old(self).spec_money(),
            final(self).spec_hover_position() == old(self).spec_hover_position(),
            final(self).spec_direction() == old(self).spec_direction(),
            final(self).spec_range() == old(self).spec_range(),
    {
        self.mode = mode;
    }

    /// The lives that the player has left.
    pub fn lives(&self) -> (lives: usize)
        ensures
            lives == self.spec_lives(),
    {
        self.lives
    }

    /// The enemies that the player has killed.
    pub fn score(&self) -> (score: usize)
        ensures
            score == self.spec_score(),
    {
        self.score
    }

    /// The money that the player has.
    pub fn money(&self) -> (money: usize)
        ensures
            money == self.spec_money(),
    {
        self.money
    }

    /// Where the tower is that the player is placing.
    pub fn hover_position(&self) -> (position: Option<Vector>)
        ensures
            position == self.spec_hover_position(),
    {
        self.hover_position
    }

    /// The direction in which the tower faces that the player is placing.
    pub fn tower_placement_direction(&self) -> (direction: Angle)
        ensures
            direction == self.spec_direction(),
    {
        self.tower_placement_direction
    }

    /// The range of the tower that the player is placing.
    pub fn tower_placement_range(&self) -> (range: &Option<Range>)
        ensures
            *range == self.spec_range(),
    {
        &self.tower_placement_range
    }

    /// The player has picked up a tower of kind `kind` at `start`, to place
    /// it.
    pub fn start_placing(&mut self, kind: TowerKind, start: Vector)
        requires
            old(self).wf(),
        ensures
            final(self).wf(),
            final(self).spec_hover_position() == Some(start),
            final(self).spec_range() is Some,
            final(self).spec_range()->0.spec_position() == start,
            final(self).spec_path() == old(self).spec_path(),
            final(self).spec_towers() == old(self).spec_towers(),
            final(self).spec_round() == old(self).spec_round(),
            final(self).spec_mode() == old(self).spec_mode(),
            final(self).spec_lives() == old(self).spec_lives(),
            final(self).spec_score() == old(self).spec_score(),
            final(self).spec_money() == old(self).spec_money(),
            final(self).spec_direction() == old(self).spec_direction(),
    {
        self.hover_position = Some(start);
        self.tower_placement_range = Some(kind.new_range(start, self.tower_placement_direction));
    }

    /// The player has moved the tower that they are placing to `position`.
    pub fn move_placing(&mut self, position: Vector)
        requires
            old(self).wf(),
        ensures
            final(self).wf(),
            final(self).spec_hover_position() == Some(position),
            match (old(self).spec_range(), final(self).spec_range()) {
                (Some(_), Some(range)) => range.spec_position() == position,
                (None, None) => true,
                _ => false,
            },
            final(self).spec_path() == old(self).spec_path(),
            final(self).spec_towers() == old(self).spec_towers(),
            final(self).spec_round() == old(self).spec_round(),
            final(self).spec_mode() == old(self).spec_mode(),
            final(self).spec_lives() == old(self).spec_lives(),
            final(self).spec_score() == old(self).spec_score(),
            final(self).spec_money() == old(self).spec_money(),
            final(self).spec_direction() == old(self).spec_direction(),
    {
        self.hover_position = Some(position);
        match &mut self.tower_placement_range {
            Some(range) => {
                range.set_position(position);
            },
            None => {},
        }
    }

    /// The player has turned the tower that they are placing by five
    /// degrees, clockwise or anticlockwise. Whole turns do not count.
    pub fn rotate_placing(&mut self, anticlockwise: bool)
        requires
            old(self).wf(),
        ensures
            final(self).wf(),
            final(self).spec_direction() == if anticlockwise {
                (old(self).spec_direction() + TOWER_PLACEMENT_DIRECTION_CHANGE_SPEED) - (
                if old(self).spec_direction() + TOWER_PLACEMENT_DIRECTION_CHANGE_SPEED
                    >= FULL_TURN {
                    FULL_TURN as int
                } else {
                    0
                })
            } else {
                (old(self).spec_direction() - TOWER_PLACEMENT_DIRECTION_CHANGE_SPEED) + (
                if old(self).spec_direction() - TOWER_PLACEMENT_DIRECTION_CHANGE_SPEED
                    <= -FULL_TURN {
                    FULL_TURN as int
                } else {
                    0
                })
            },
            final(self).spec_hover_position() == old(self).spec_hover_position(),
            final(self).spec_path() == old(self).spec_path(),
            final(self).spec_towers() == old(self).spec_towers(),
            final(self).spec_round() == old(self).spec_round(),
            final(self).spec_mode() == old(self).spec_mode(),
            final(self).spec_lives() == old(self).spec_lives(),
            final(self).spec_score() == old(self).spec_score(),
            final(self).spec_money() == old(self).spec_money(),
    {
        let mut direction = self.tower_placement_direction;
        if anticlockwise {
            direction = direction + TOWER_PLACEMENT_DIRECTION_CHANGE_SPEED;
            if direction >= FULL_TURN {
                direction = direction - FULL_TURN;
            }
        } else {
            direction = direction - TOWER_PLACEMENT_DIRECTION_CHANGE_SPEED;
            if direction <= -FULL_TURN {
                direction = direction + FULL_TURN;
            }
        }
        self.tower_placement_direction = direction;
        match &mut self.tower_placement_range {
            Some(range) => {
                range.set_direction(direction);
            },
            None => {},
        }
    }

    /// The player has let go of a tower of kind `kind` at `position`. The
    /// tower is placed there if it may stand there and the player can pay
    /// for it; then the links are weighed anew, and the best route is found
    /// anew. Returns whether the tower was placed.
    /// `bearing_of` tells in which direction a displacement points;
    /// `from_polar` gives the displacement of a length in a direction.
    pub fn finish_placing<B: Fn(Vector) -> Angle, P: Fn(Angle, u32) -> Vector>(
        &mut self,
        kind: TowerKind,
        position: Vector,
        bearing_of: &B,
        from_polar: &P,
    ) -> (placed: bool)
        requires
            old(self).wf(),
            forall|v: Vector| bearing_of.requires((v,)),
            forall|angle: Angle, length: u32| from_polar.requires((angle, length)),
            forall|angle: Angle, length: u32, edge: Vector|
                from_polar.ensures((angle, length), edge) ==> -length <= edge.x <= length
                    && -length <= edge.y <= length,
        ensures
            final(self).wf(),
            placed == (can_stand_at(position) && kind.spec_price() <= old(self).spec_money()),
            final(self).spec_hover_position() is None,
            final(self).spec_round() == old(self).spec_round(),
            final(self).spec_mode() == old(self).spec_mode(),
            final(self).spec_lives() == old(self).spec_lives(),
            final(self).spec_score() == old(self).spec_score(),
            final(self).spec_path().graph().positions == old(self).spec_path().graph().positions,
            final(self).spec_path().graph().weights.dom() == old(
                self,
            ).spec_path().graph().weights.dom(),
            final(self).spec_path().start() == old(self).spec_path().start(),
            final(self).spec_path().end() == old(self).spec_path().end(),
            !placed ==> {
                &&& final(self).spec_path() == old(self).spec_path()
                &&& final(self).spec_towers() == old(self).spec_towers()
                &&& final(self).spec_money() == old(self).spec_money()
                &&& final(self).spec_direction() == old(self).spec_direction()
                &&& final(self).spec_range() == old(self).spec_range()
            },
            placed ==> {
                &&& final(self).spec_money() == old(self).spec_money() - kind.spec_price()
                &&& final(self).spec_towers().len() == old(self).spec_towers().len() + 1
                &&& final(self).spec_towers().subrange(0, old(self).spec_towers().len() as int)
                    == old(self).spec_towers()
                &&& final(self).spec_towers()[old(self).spec_towers().len() as int]@.position
                    == position
                &&& final(self).spec_direction() == 0
                &&& final(self).spec_range() is None
                &&& forall|from: NodeIndex, to: NodeIndex| #[trigger]
                    final(self).spec_path().graph().has_link(from, to) ==> weighs(
                        final(self).spec_towers(),
                        final(self).spec_path().graph().positions[from.0 as int],
                        final(self).spec_path().graph().positions[to.0 as int],
                        bearing_of,
                        from_polar,
                        final(self).spec_path().graph().weights[(from, to)],
                    )
            },
    {
        self.hover_position = None;
        if 2_600 <= position.x && position.x <= 38_200 && 200 <= position.y && position.y
            < 21_400 {
            let price = kind.price();
            if price <= self.money {
                self.money -= price;
                let ghost had = self.towers@;
                let tower = kind.spawn(position, self.tower_placement_direction);
                self.towers.push(tower);
                self.tower_placement_direction = 0;
                self.tower_placement_range = None;
                proof {
                    assert(self.towers@.subrange(0, had.len() as int) =~= had);
                    assert forall|i: int| 0 <= i < self.towers@.len() implies (
                    #[trigger] self.towers@[i]).wf() by {
                        if i < had.len() {
                            assert(had[i].wf());
                        }
                    }
                    self.path.lemma_wf();
                }
                let towers = &self.towers;
                let ghost places = self.path.graph().positions;
                let weigh = |a: Vector, b: Vector| -> (weight: u64)
                    requires
                        in_reach(a),
                        in_reach(b),
                    ensures
                        weighs(towers@, a, b, bearing_of, from_polar, weight),
                        weight >= distance(a, b) + 1,
                    { obstructed_weight(towers, a, b, bearing_of, from_polar) };
                self.path.recalculate_weights(weigh);
                proof {
                    let graph = self.path.graph();
                    assert forall|from: NodeIndex, to: NodeIndex| #[trigger]
                        graph.has_link(from, to) implies graph.weight(from, to) >= distance(
                        graph.positions[from.0 as int],
                        graph.positions[to.0 as int],
                    ) + 1 && weighs(
                        self.towers@,
                        graph.positions[from.0 as int],
                        graph.positions[to.0 as int],
                        bearing_of,
                        from_polar,
                        graph.weights[(from, to)],
                    ) by {
                        assert(weigh.ensures(
                            (graph.positions[from.0 as int], graph.positions[to.0 as int]),
                            graph.weights[(from, to)],
                        ));
                    }
                    lemma_covering_weights_are_consistent(graph, self.path.end());
                }
                self.path.pathfind();
                return true;
            }
        }
        false
    }

    /// Updates the bullets, enemies and towers, moving them one step forward
    /// in time, while the game is played. Where the player has lost the last
    /// life, the game begins anew, and the score is returned.
    /// `bearing_of` tells in which direction a displacement points; `aim`
    /// gives the velocity with which a projectile hits a moving target.
    pub fn update<B: Fn(Vector) -> Angle, A: Fn(Vector, Vector, Vector, u32) -> Vector>(
        &mut self,
        bearing_of: &B,
        aim: &A,
    ) -> (final_score: Option<usize>)
        requires
            old(self).wf(),
            forall|v: Vector| bearing_of.requires((v,)),
            forall|from: Vector, to: Vector, moving: Vector, speed: u32|
                aim.requires((from, to, moving, speed)),
            forall|from: Vector, to: Vector, moving: Vector, speed: u32, velocity: Vector|
                aim.ensures((from, to, moving, speed), velocity) ==> in_launch_range(velocity),
        ensures
            final(self).wf(),
            old(self).spec_mode() == GameMode::MainMenu ==> final_score is None && *final(self)
                == *old(self),
            old(self).spec_mode() == GameMode::Play ==> exists|
                roll: u32,
                round: RoundState,
                towers: Seq<Tower>,
                outcome: (usize, usize),
            |
                #[trigger] round_step(
                    old(self).spec_round(),
                    old(self).spec_towers(),
                    old(self).spec_path().route_positions(),
                    roll,
                    *bearing_of,
                    *aim,
                    round,
                    towers,
                    outcome,
                ) && played(*old(self), round, towers, outcome, *final(self), final_score),
    {
        match self.mode {
            GameMode::MainMenu => None,
            GameMode::Play => {
                let (lives_lost, enemies_killed) = self.round.update(
                    &self.path,
                    &mut self.towers,
                    bearing_of,
                    aim,
                );
                let ghost round = self.round@;
                let ghost towers = self.towers@;
                let ghost roll = choose|roll: u32| #[trigger]
                    round_step(
                        old(self).spec_round(),
                        old(self).spec_towers(),
                        old(self).spec_path().route_positions(),
                        roll,
                        *bearing_of,
                        *aim,
                        round,
                        towers,
                        (lives_lost, enemies_killed),
                    );
                self.lives = self.lives.saturating_sub(lives_lost);
                self.score = self.score.saturating_add(enemies_killed);
                self.money = self.money.saturating_add(enemies_killed.saturating_add(enemies_killed));
                if self.lives == 0 {
                    let final_score = self.score;
                    *self = GameState::new();
                    proof {
                        assert(played(
                            *old(self),
                            round,
                            towers,
                            (lives_lost, enemies_killed),
                            *self,
                            Some(final_score),
                        ));
                    }
                    return Some(final_score);
                }
                if self.round.complete() && self.round.round_number() < LAST_ROUND {
                    self.round.next();
                }
                proof {
                    assert(played(
                        *old(self),
                        round,
                        towers,
                        (lives_lost, enemies_killed),
                        *self,
                        None,
                    ));
                }
                None
            },
        }
    }
}

/// Whether `after` and `final_score` are how the game stands, and the score
/// with which it ended if it did, once the round and the towers have come to
/// stand as `round` and `towers` with the outcome `outcome`: the lives lost
/// are taken from the lives, the enemies killed are added to the score, and
/// twice their number to the money; without lives the game begins anew; a
/// round that is over is followed by the next.
pub open spec fn played(
    before: GameState,
    round: RoundState,
    towers: Seq<Tower>,
    outcome: (usize, usize),
    after: GameState,
    final_score: Option<usize>,
) -> bool {
    let lives = lives_after(before.spec_lives(), outcome.0 as int);
    let score = capped(before.spec_score() + outcome.1);
    let money = capped(before.spec_money() + capped(2 * outcome.1));
    if lives == 0 {
        final_score == Some(score as usize) && after.is_new()
    } else {
        &&& final_score is None
        &&& after.spec_lives() == lives
        &&& after.spec_score() == score
        &&& after.spec_money() == money
        &&& after.spec_towers() == towers
        &&& after.spec_path() == before.spec_path()
        &&& after.spec_mode() == before.spec_mode()
        &&& after.spec_hover_position() == before.spec_hover_position()
        &&& after.spec_direction() == before.spec_direction()
        &&& after.spec_range() == before.spec_range()
        &&& after.spec_round() == if round.enemies_left == 0 && round.enemies.len() == 0
            && round.round_number < LAST_ROUND {
            RoundState {
                enemies_left: crate::rounds::enemies_in(round.round_number + 1),
                round_number: round.round_number + 1,
                time_to_next_shot: crate::rounds::time_between(round.round_number + 1),
                enemies: Seq::empty(),
            }
        } else {
            round
        }
    }
}

} // verus!
