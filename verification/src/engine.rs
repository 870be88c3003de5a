//! The simulation core built on the entity/component store: world setup,
//! the directional control system, the per-tick integration step, and the
//! frame rasterizer.
//!
//! The host drives one tick as: control calls (one per held direction key,
//! then [`GameState::zero_player_vel`] for the released axes), then one
//! [`GameState::update_entity_positions`], then
//! [`GameState::generate_frame`].

use vstd::prelude::*;

use crate::components::{Player, Position, Size, Velocity};
use crate::ecs::{Component, Entity, World};
use vstd::arithmetic::mul::lemma_mul_inequality;

verus! {

/// Velocity components are clamped to the closed range
/// `[-MAX_SPEED, MAX_SPEED]` by the control system.
pub const MAX_SPEED: i64 = 5;

/// A discrete direction command, applied to the player once per input
/// sample. `Neutral` is the explicit no-op that stands for an unrecognized
/// or absent direction.
#[derive(Clone, Copy, Debug, PartialEq, Eq, Structural)]
pub enum Direction {
    Up,
    Down,
    Left,
    Right,
    Neutral,
}

/// `v` clamped to the closed range `[-MAX_SPEED, MAX_SPEED]`.
pub open spec fn clamp_speed(v: int) -> int {
    if v < -MAX_SPEED {
        -MAX_SPEED as int
    } else if v > MAX_SPEED {
        MAX_SPEED as int
    } else {
        v
    }
}

/// One control step of a velocity component toward the negative axis
/// direction: momentum in the opposing direction is first reset to zero,
/// then the component moves one unit and is clamped.
pub open spec fn steer_neg(v: int) -> int {
    clamp_speed((if v > 0 { 0int } else { v }) - 1)
}

/// One control step of a velocity component toward the positive axis
/// direction: momentum in the opposing direction is first reset to zero,
/// then the component moves one unit and is clamped.
pub open spec fn steer_pos(v: int) -> int {
    clamp_speed((if v < 0 { 0int } else { v }) + 1)
}

/// The velocity after one direction command. The two axes are independent:
/// `Up`/`Down` drive y (negative y is up, matching the top-left origin),
/// `Left`/`Right` drive x, and `Neutral` changes nothing.
pub open spec fn steered(v: Velocity, direction: Direction) -> Velocity {
    match direction {
        Direction::Up => Velocity { x: v.x, y: steer_neg(v.y as int) as i64 },
        Direction::Down => Velocity { x: v.x, y: steer_pos(v.y as int) as i64 },
        Direction::Left => Velocity { x: steer_neg(v.x as int) as i64, y: v.y },
        Direction::Right => Velocity { x: steer_pos(v.x as int) as i64, y: v.y },
        Direction::Neutral => v,
    }
}

/// The velocity after a decay call: each axis is independently forced to
/// zero when its flag is set and untouched otherwise.
pub open spec fn zeroed(v: Velocity, zero_x: bool, zero_y: bool) -> Velocity {
    Velocity { x: if zero_x { 0 } else { v.x }, y: if zero_y { 0 } else { v.y } }
}

/// Both velocity components lie within the control system's speed limit.
pub open spec fn velocity_in_range(v: Velocity) -> bool {
    -MAX_SPEED <= v.x <= MAX_SPEED && -MAX_SPEED <= v.y <= MAX_SPEED
}

/// Addition that stops at the representable ends instead of wrapping.
pub open spec fn sat_add(a: int, b: int) -> int {
    if a + b > i64::MAX {
        i64::MAX as int
    } else if a + b < i64::MIN {
        i64::MIN as int
    } else {
        a + b
    }
}

/// The position after one integration step: the velocity is added
/// coordinate-wise, one whole tick's displacement at a time.
pub open spec fn integrated(p: Position, v: Velocity) -> Position {
    Position { x: sat_add(p.x as int, v.x as int) as i64, y: sat_add(p.y as int, v.y as int) as i64 }
}

/// Whether pixel `(x, y)` lies inside the axis-aligned box at `pos` with
/// extent `size`.
pub open spec fn in_box(pos: Position, size: Size, x: int, y: int) -> bool {
    pos.x <= x < pos.x + size.width && pos.y <= y < pos.y + size.height
}

/// The four RGBA bytes of pixel `(x, y)`: the box color where the player's
/// box covers the pixel, the background color everywhere else.
pub open spec fn pixel_bytes(pos: Position, size: Size, x: int, y: int) -> Seq<u8> {
    if in_box(pos, size, x, y) {
        seq![0x5eu8, 0x48u8, 0xe8u8, 0xffu8]
    } else {
        seq![0x48u8, 0xb2u8, 0xe8u8, 0xffu8]
    }
}

/// The byte offset of pixel `(x, y)` in a row-major RGBA frame of the given
/// width, with the origin at the top left.
pub open spec fn pixel_offset(width: int, x: int, y: int) -> int {
    4 * (y * width + x)
}

/// The simulation state: the frame dimensions, the world that owns all
/// entity and component data, and the player entity seeded at construction.
///
/// Exactly one entity carries the [`Player`] marker, and that entity always
/// carries [`Position`], [`Velocity`] and [`Size`]; every velocity-bearing
/// entity also has a position, and every velocity respects the speed limit.
/// These invariants are established by [`GameState::new`] and preserved by
/// every operation; mutation of the world goes only through this type, so
/// they cannot be broken from outside.
pub struct GameState {
    width: u32,
    height: u32,
    world: World,
    player: Entity,
}

impl GameState {
    /// The frame width in pixels.
    pub closed spec fn spec_width(self) -> int {
        self.width as int
    }

    /// The frame height in pixels.
    pub closed spec fn spec_height(self) -> int {
        self.height as int
    }

    /// The world owning all entity and component data.
    pub closed spec fn spec_world(self) -> World {
        self.world
    }

    /// The distinguished player entity.
    pub closed spec fn spec_player(self) -> Entity {
        self.player
    }

    /// The mapping from entities to positions.
    pub open spec fn positions(self) -> Map<Entity, Position> {
        Position::wmap(self.spec_world())
    }

    /// The mapping from entities to velocities.
    pub open spec fn velocities(self) -> Map<Entity, Velocity> {
        Velocity::wmap(self.spec_world())
    }

    /// The mapping from entities to sizes.
    pub open spec fn sizes(self) -> Map<Entity, Size> {
        Size::wmap(self.spec_world())
    }

    /// The mapping from entities to player markers.
    pub open spec fn players(self) -> Map<Entity, Player> {
        Player::wmap(self.spec_world())
    }

    /// The player's position.
    pub open spec fn player_position(self) -> Position {
        self.positions()[self.spec_player()]
    }

    /// The player's velocity.
    pub open spec fn player_velocity(self) -> Velocity {
        self.velocities()[self.spec_player()]
    }

    /// The player's extent.
    pub open spec fn player_size(self) -> Size {
        self.sizes()[self.spec_player()]
    }

    /// The state invariants: see the type documentation.
    pub open spec fn wf(self) -> bool {
        &&& self.spec_world().wf()
        &&& self.players().dom() == set![self.spec_player()]
        &&& self.positions().dom().contains(self.spec_player())
        &&& self.velocities().dom().contains(self.spec_player())
        &&& self.sizes().dom().contains(self.spec_player())
        &&& self.velocities().dom().subset_of(self.positions().dom())
        &&& forall|e: Entity|
            self.velocities().dom().contains(e) ==> velocity_in_range(#[trigger] self.velocities()[e])
        &&& self.spec_width() * self.spec_height() * 4 <= u32::MAX
    }

    /// A world of the given frame dimensions, seeded with one player entity
    /// at position `(100, 100)`, velocity `(0, 0)` and size `(50, 50)`.
    pub fn new(width: u32, height: u32) -> (s: GameState)
        requires
            width as int * height as int * 4 <= u32::MAX,
        ensures
            s.wf(),
            s.spec_width() == width,
            s.spec_height() == height,
            s.spec_player().id() == 0,
            s.spec_world().allocated() == 1,
            s.positions() == map![s.spec_player() => (Position { x: 100, y: 100 })],
            s.velocities() == map![s.spec_player() => (Velocity { x: 0, y: 0 })],
            s.sizes() == map![s.spec_player() => (Size { width: 50, height: 50 })],
            s.players().dom() == set![s.spec_player()],
    {
        let mut world = World::new();
        let player = world.create_entity();
        world.add_component::<Position>(player, Position { x: 100, y: 100 });
        world.add_component::<Velocity>(player, Velocity { x: 0, y: 0 });
        world.add_component::<Size>(player, Size { width: 50, height: 50 });
        world.add_component::<Player>(player, Player {  });
        let s = GameState { width, height, world, player };
        proof {
            assert(s.positions() =~= map![player => (Position { x: 100, y: 100 })]);
            assert(s.velocities() =~= map![player => (Velocity { x: 0, y: 0 })]);
            assert(s.sizes() =~= map![player => (Size { width: 50, height: 50 })]);
            assert(s.players().dom() =~= set![player]);
        }
        s
    }

    /// The frame width in pixels.
    pub fn width(&self) -> (w: u32)
        ensures
            w == self.spec_width(),
    {
        self.width
    }

    /// The frame height in pixels.
    pub fn height(&self) -> (h: u32)
        ensures
            h == self.spec_height(),
    {
        self.height
    }

    /// The distinguished player entity.
    pub fn player(&self) -> (p: Entity)
        ensures
            p == self.spec_player(),
    {
        self.player
    }

    /// Applies one direction command to every entity carrying the player
    /// marker — in practice exactly one. On the driven axis, momentum in
    /// the opposing direction is reset to zero, then the component moves
    /// one unit toward the command and is clamped to
    /// `[-MAX_SPEED, MAX_SPEED]`; the other axis and every other entity's
    /// velocity are untouched, as is everything that is not a velocity.
    #[verifier::loop_isolation(false)]
    pub fn update_player_velocity(&mut self, direction: Direction)
        requires
            old(self).wf(),
        ensures
            final(self).wf(),
            final(self).spec_width() == old(self).spec_width(),
            final(self).spec_height() == old(self).spec_height(),
            final(self).spec_player() == old(self).spec_player(),
            final(self).spec_world().allocated() == old(self).spec_world().allocated(),
            final(self).positions() == old(self).positions(),
            final(self).sizes() == old(self).sizes(),
            final(self).players() == old(self).players(),
            final(self).velocities().dom() == old(self).velocities().dom(),
            forall|e: Entity|
                old(self).players().dom().contains(e) ==> final(self).velocities()[e] == steered(
                    old(self).velocities()[e],
                    direction,
                ),
            forall|e: Entity|
                old(self).velocities().dom().contains(e) && !old(self).players().dom().contains(e)
                    ==> final(self).velocities()[e] == old(self).velocities()[e],
    {
        let player_list = self.world.get_storage::<Player>().keys();
        let n = player_list.len();
        let mut k: usize = 0;
        while k < n
            invariant
                k <= n,
                self.world.wf(),
                self.width == old(self).width,
                self.height == old(self).height,
                self.player == old(self).player,
                self.world.allocated() == old(self).spec_world().allocated(),
                self.world.position_map() == old(self).positions(),
                self.world.size_map() == old(self).sizes(),
                self.world.player_map() == old(self).players(),
                self.world.velocity_map().dom() == old(self).velocities().dom(),
                forall|j: int|
                    0 <= j < k ==> self.world.velocity_map()[#[trigger] player_list@[j]] == steered(
                        old(self).velocities()[player_list@[j]],
                        direction,
                    ),
                forall|e: Entity|
                    old(self).velocities().dom().contains(e) && !player_list@.subrange(
                        0,
                        k as int,
                    ).contains(e) ==> self.world.velocity_map()[e] == old(self).velocities()[e],
                forall|e: Entity|
                    self.world.velocity_map().dom().contains(e) ==> velocity_in_range(
                        #[trigger] self.world.velocity_map()[e],
                    ),
            decreases n - k,
        {
            let e = player_list[k];
            proof {
                assert(old(self).players().dom().contains(e));
                assert(e == old(self).spec_player());
                assert(!player_list@.subrange(0, k as int).contains(e)) by {
                    if player_list@.subrange(0, k as int).contains(e) {
                        let j = choose|j: int|
                            0 <= j < k && player_list@.subrange(0, k as int)[j] == e;
                        assert(player_list@[j] == player_list@[k as int]);
                    }
                }
            }
            let ghost vel_before = self.world.velocity_map();
            let r = self.world.get_component_mut::<Velocity>(e);
            match r {
                Some(velocity) => {
                    let ghost v0 = *velocity;
                    match direction {
                        Direction::Up => {
                            if velocity.y > 0 {
                                velocity.y = 0;
                            }
                            velocity.y = clamp_to_limit(velocity.y - 1);
                        },
                        Direction::Down => {
                            if velocity.y < 0 {
                                velocity.y = 0;
                            }
                            velocity.y = clamp_to_limit(velocity.y + 1);
                        },
                        Direction::Left => {
                            if velocity.x > 0 {
                                velocity.x = 0;
                            }
                            velocity.x = clamp_to_limit(velocity.x - 1);
                        },
                        Direction::Right => {
                            if velocity.x < 0 {
                                velocity.x = 0;
                            }
                            velocity.x = clamp_to_limit(velocity.x + 1);
                        },
                        Direction::Neutral => {},
                    }
                    proof {
                        assert(*velocity == steered(v0, direction));
                    }
                },
                None => {
                    proof {
                        assert(false);
                    }
                },
            }
            proof {
                assert(self.world.velocity_map() == vel_before.insert(
                    e,
                    steered(old(self).velocities()[e], direction),
                ));
                assert(self.world.velocity_map().dom() =~= old(self).velocities().dom());
                assert(player_list@.subrange(0, k as int + 1) =~= player_list@.subrange(
                    0,
                    k as int,
                ).push(e));
                assert(player_list@.subrange(0, k as int + 1)[k as int] == e);
                assert forall|e2: Entity|
                    old(self).velocities().dom().contains(e2) && !player_list@.subrange(
                        0,
                        k as int + 1,
                    ).contains(e2) implies self.world.velocity_map()[e2] == old(
                    self,
                ).velocities()[e2] by {
                    assert(!player_list@.subrange(0, k as int).contains(e2)) by {
                        if player_list@.subrange(0, k as int).contains(e2) {
                            let j = choose|j: int|
                                0 <= j < k && player_list@.subrange(0, k as int)[j] == e2;
                            assert(player_list@.subrange(0, k as int + 1)[j] == e2);
                        }
                    }
                    assert(e2 != e);
                }
            }
            k = k + 1;
        }
        proof {
            assert forall|e: Entity| old(self).players().dom().contains(e) implies self.world
                .velocity_map()[e] == steered(old(self).velocities()[e], direction) by {
                assert(player_list@.contains(e));
                let j = choose|j: int| 0 <= j < player_list@.len() && player_list@[j] == e;
                assert(self.world.velocity_map()[player_list@[j]] == steered(
                    old(self).velocities()[player_list@[j]],
                    direction,
                ));
            }
            assert forall|e: Entity|
                old(self).velocities().dom().contains(e) && !old(self).players().dom().contains(
                    e,
                ) implies self.world.velocity_map()[e] == old(self).velocities()[e] by {
                assert(!player_list@.subrange(0, n as int).contains(e)) by {
                    if player_list@.subrange(0, n as int).contains(e) {
                        let j = choose|j: int|
                            0 <= j < n && player_list@.subrange(0, n as int)[j] == e;
                        assert(old(self).players().dom().contains(player_list@[j]));
                    }
                }
            }
        }
    }

    /// Forces the player's velocity components to zero, each axis
    /// independently: `x` and `y` say whether the horizontal and vertical
    /// component are zeroed. This is how velocity decays to rest when no
    /// input is held on an axis this tick; nothing else resets it.
    /// Everything that is not a player velocity is untouched.
    #[verifier::loop_isolation(false)]
    pub fn zero_player_vel(&mut self, x: bool, y: bool)
        requires
            old(self).wf(),
        ensures
            final(self).wf(),
            final(self).spec_width() == old(self).spec_width(),
            final(self).spec_height() == old(self).spec_height(),
            final(self).spec_player() == old(self).spec_player(),
            final(self).spec_world().allocated() == old(self).spec_world().allocated(),
            final(self).positions() == old(self).positions(),
            final(self).sizes() == old(self).sizes(),
            final(self).players() == old(self).players(),
            final(self).velocities().dom() == old(self).velocities().dom(),
            forall|e: Entity|
                old(self).players().dom().contains(e) ==> final(self).velocities()[e] == zeroed(
                    old(self).velocities()[e],
                    x,
                    y,
                ),
            forall|e: Entity|
                old(self).velocities().dom().contains(e) && !old(self).players().dom().contains(e)
                    ==> final(self).velocities()[e] == old(self).velocities()[e],
    {
        let player_list = self.world.get_storage::<Player>().keys();
        let n = player_list.len();
        let mut k: usize = 0;
        while k < n
            invariant
                k <= n,
                self.world.wf(),
                self.width == old(self).width,
                self.height == old(self).height,
                self.player == old(self).player,
                self.world.allocated() == old(self).spec_world().allocated(),
                self.world.position_map() == old(self).positions(),
                self.world.size_map() == old(self).sizes(),
                self.world.player_map() == old(self).players(),
                self.world.velocity_map().dom() == old(self).velocities().dom(),
                forall|j: int|
                    0 <= j < k ==> self.world.velocity_map()[#[trigger] player_list@[j]] == zeroed(
                        old(self).velocities()[player_list@[j]],
                        x,
                        y,
                    ),
                forall|e: Entity|
                    old(self).velocities().dom().contains(e) && !player_list@.subrange(
                        0,
                        k as int,
                    ).contains(e) ==> self.world.velocity_map()[e] == old(self).velocities()[e],
                forall|e: Entity|
                    self.world.velocity_map().dom().contains(e) ==> velocity_in_range(
                        #[trigger] self.world.velocity_map()[e],
                    ),
            decreases n - k,
        {
            let e = player_list[k];
            proof {
                assert(old(self).players().dom().contains(e));
                assert(e == old(self).spec_player());
                assert(!player_list@.subrange(0, k as int).contains(e)) by {
                    if player_list@.subrange(0, k as int).contains(e) {
                        let j = choose|j: int|
                            0 <= j < k && player_list@.subrange(0, k as int)[j] == e;
                        assert(player_list@[j] == player_list@[k as int]);
                    }
                }
            }
            let ghost vel_before = self.world.velocity_map();
            let r = self.world.get_component_mut::<Velocity>(e);
            match r {
                Some(velocity) => {
                    let ghost v0 = *velocity;
                    if x {
                        velocity.x = 0;
                    }
                    if y {
                        velocity.y = 0;
                    }
                    proof {
                        assert(*velocity == zeroed(v0, x, y));
                    }
                },
                None => {
                    proof {
                        assert(false);
                    }
                },
            }
            proof {
                assert(self.world.velocity_map() == vel_before.insert(
                    e,
                    zeroed(old(self).velocities()[e], x, y),
                ));
                assert(self.world.velocity_map().dom() =~= old(self).velocities().dom());
                assert(player_list@.subrange(0, k as int + 1) =~= player_list@.subrange(
                    0,
                    k as int,
                ).push(e));
                assert(player_list@.subrange(0, k as int + 1)[k as int] == e);
                assert forall|e2: Entity|
                    old(self).velocities().dom().contains(e2) && !player_list@.subrange(
                        0,
                        k as int + 1,
                    ).contains(e2) implies self.world.velocity_map()[e2] == old(
                    self,
                ).velocities()[e2] by {
                    assert(!player_list@.subrange(0, k as int).contains(e2)) by {
                        if player_list@.subrange(0, k as int).contains(e2) {
                            let j = choose|j: int|
                                0 <= j < k && player_list@.subrange(0, k as int)[j] == e2;
                            assert(player_list@.subrange(0, k as int + 1)[j] == e2);
                        }
                    }
                    assert(e2 != e);
                }
            }
            k = k + 1;
        }
        proof {
            assert forall|e: Entity| old(self).players().dom().contains(e) implies self.world
                .velocity_map()[e] == zeroed(old(self).velocities()[e], x, y) by {
                assert(player_list@.contains(e));
                let j = choose|j: int| 0 <= j < player_list@.len() && player_list@[j] == e;
                assert(self.world.velocity_map()[player_list@[j]] == zeroed(
                    old(self).velocities()[player_list@[j]],
                    x,
                    y,
                ));
            }
            assert forall|e: Entity|
                old(self).velocities().dom().contains(e) && !old(self).players().dom().contains(
                    e,
                ) implies self.world.velocity_map()[e] == old(self).velocities()[e] by {
                assert(!player_list@.subrange(0, n as int).contains(e)) by {
                    if player_list@.subrange(0, n as int).contains(e) {
                        let j = choose|j: int|
                            0 <= j < n && player_list@.subrange(0, n as int)[j] == e;
                        assert(old(self).players().dom().contains(player_list@[j]));
                    }
                }
            }
        }
    }

    /// One simulation step: every entity that has a velocity gets that
    /// velocity added into its position, coordinate-wise, once. Entities
    /// with a position but no velocity are not moved; velocities, sizes and
    /// player markers are untouched. There is no notion of elapsed real
    /// time: one call is one logical tick.
    ///
    /// The velocity entries are snapshotted before any position is written,
    /// so the mutation of the position storage cannot alias the data being
    /// read; the per-entity updates are independent, so their order does
    /// not affect the result.
    #[verifier::loop_isolation(false)]
    pub fn update_entity_positions(&mut self)
        requires
            old(self).wf(),
        ensures
            final(self).wf(),
            final(self).spec_width() == old(self).spec_width(),
            final(self).spec_height() == old(self).spec_height(),
            final(self).spec_player() == old(self).spec_player(),
            final(self).spec_world().allocated() == old(self).spec_world().allocated(),
            final(self).velocities() == old(self).velocities(),
            final(self).sizes() == old(self).sizes(),
            final(self).players() == old(self).players(),
            final(self).positions().dom() == old(self).positions().dom(),
            forall|e: Entity|
                old(self).velocities().dom().contains(e) ==> final(self).positions()[e]
                    == integrated(old(self).positions()[e], old(self).velocities()[e]),
            forall|e: Entity|
                old(self).positions().dom().contains(e) && !old(self).velocities().dom().contains(
                    e,
                ) ==> final(self).positions()[e] == old(self).positions()[e],
    {
        let moving = self.world.get_storage::<Velocity>().keys();
        let n = moving.len();
        let mut k: usize = 0;
        while k < n
            invariant
                k <= n,
                self.world.wf(),
                self.width == old(self).width,
                self.height == old(self).height,
                self.player == old(self).player,
                self.world.allocated() == old(self).spec_world().allocated(),
                self.world.velocity_map() == old(self).velocities(),
                self.world.size_map() == old(self).sizes(),
                self.world.player_map() == old(self).players(),
                self.world.position_map().dom() == old(self).positions().dom(),
                forall|j: int|
                    0 <= j < k ==> self.world.position_map()[#[trigger] moving@[j]] == integrated(
                        old(self).positions()[moving@[j]],
                        old(self).velocities()[moving@[j]],
                    ),
                forall|e: Entity|
                    old(self).positions().dom().contains(e) && !moving@.subrange(
                        0,
                        k as int,
                    ).contains(e) ==> self.world.position_map()[e] == old(self).positions()[e],
            decreases n - k,
        {
            let e = moving[k];
            proof {
                assert(old(self).velocities().dom().contains(e));
                assert(old(self).positions().dom().contains(e));
                assert(!moving@.subrange(0, k as int).contains(e)) by {
                    if moving@.subrange(0, k as int).contains(e) {
                        let j = choose|j: int| 0 <= j < k && moving@.subrange(0, k as int)[j] == e;
                        assert(moving@[j] == moving@[k as int]);
                    }
                }
            }
            let velocity = *self.world.get_component::<Velocity>(e).unwrap();
            let position = *self.world.get_component::<Position>(e).unwrap();
            let moved = Position { x: add_sat(position.x, velocity.x), y: add_sat(
                position.y,
                velocity.y,
            ) };
            let ghost pos_before = self.world.position_map();
            self.world.add_component::<Position>(e, moved);
            proof {
                assert(self.world.position_map() == pos_before.insert(
                    e,
                    integrated(old(self).positions()[e], old(self).velocities()[e]),
                ));
                assert(self.world.position_map().dom() =~= old(self).positions().dom());
                assert(moving@.subrange(0, k as int + 1) =~= moving@.subrange(0, k as int).push(e));
                assert(moving@.subrange(0, k as int + 1)[k as int] == e);
                assert forall|e2: Entity|
                    old(self).positions().dom().contains(e2) && !moving@.subrange(
                        0,
                        k as int + 1,
                    ).contains(e2) implies self.world.position_map()[e2] == old(
                    self,
                ).positions()[e2] by {
                    assert(!moving@.subrange(0, k as int).contains(e2)) by {
                        if moving@.subrange(0, k as int).contains(e2) {
                            let j = choose|j: int|
                                0 <= j < k && moving@.subrange(0, k as int)[j] == e2;
                            assert(moving@.subrange(0, k as int + 1)[j] == e2);
                        }
                    }
                    assert(e2 != e);
                }
            }
            k = k + 1;
        }
        proof {
            assert forall|e: Entity| old(self).velocities().dom().contains(e) implies self.world
                .position_map()[e] == integrated(
                old(self).positions()[e],
                old(self).velocities()[e],
            ) by {
                assert(moving@.contains(e));
                let j = choose|j: int| 0 <= j < moving@.len() && moving@[j] == e;
                assert(self.world.position_map()[moving@[j]] == integrated(
                    old(self).positions()[moving@[j]],
                    old(self).velocities()[moving@[j]],
                ));
            }
            assert forall|e: Entity|
                old(self).positions().dom().contains(e) && !old(self).velocities().dom().contains(
                    e,
                ) implies self.world.position_map()[e] == old(self).positions()[e] by {
                assert(!moving@.subrange(0, n as int).contains(e)) by {
                    if moving@.subrange(0, n as int).contains(e) {
                        let j = choose|j: int| 0 <= j < n && moving@.subrange(0, n as int)[j] == e;
                        assert(old(self).velocities().dom().contains(moving@[j]));
                    }
                }
            }
        }
    }

    /// Rasterizes the current state into a row-major RGBA frame of
    /// `width * height * 4` bytes, origin at the top left. Every pixel the
    /// player's box covers — box bounds taken as whole units, the end
    /// coordinates exclusive — gets the box color `{0x5e, 0x48, 0xe8, 0xff}`;
    /// every other pixel gets the background color `{0x48, 0xb2, 0xe8, 0xff}`.
    /// Called once per tick, after the simulation step; it mutates nothing.
    #[verifier::loop_isolation(false)]
    pub fn generate_frame(&self) -> (frame: Vec<u8>)
        requires
            self.wf(),
        ensures
            frame@.len() == self.spec_width() * self.spec_height() * 4,
            forall|x: int, y: int|
                0 <= x < self.spec_width() && 0 <= y < self.spec_height() ==> frame@.subrange(
                    pixel_offset(self.spec_width(), x, y),
                    pixel_offset(self.spec_width(), x, y) + 4,
                ) == pixel_bytes(self.player_position(), self.player_size(), x, y),
    {
        let position = *self.world.get_component::<Position>(self.player).unwrap();
        let size = *self.world.get_component::<Size>(self.player).unwrap();
        let width = self.width;
        let height = self.height;
        let mut frame: Vec<u8> = Vec::new();
        let mut y: u32 = 0;
        while y < height
            invariant
                y <= height,
                frame@.len() == 4 * ((y as int) * (width as int)),
                forall|x2: int, y2: int|
                    0 <= x2 < width && 0 <= y2 < y ==> frame@.subrange(
                        pixel_offset(width as int, x2, y2),
                        pixel_offset(width as int, x2, y2) + 4,
                    ) == #[trigger] pixel_bytes(position, size, x2, y2),
            decreases height - y,
        {
            let mut x: u32 = 0;
            while x < width
                invariant
                    x <= width,
                    frame@.len() == 4 * ((y as int) * (width as int) + (x as int)),
                    forall|x2: int, y2: int|
                        0 <= x2 < width && 0 <= y2 < y ==> frame@.subrange(
                            pixel_offset(width as int, x2, y2),
                            pixel_offset(width as int, x2, y2) + 4,
                        ) == #[trigger] pixel_bytes(position, size, x2, y2),
                    forall|x2: int|
                        0 <= x2 < x ==> frame@.subrange(
                            pixel_offset(width as int, x2, y as int),
                            pixel_offset(width as int, x2, y as int) + 4,
                        ) == #[trigger] pixel_bytes(position, size, x2, y as int),
                decreases width - x,
            {
                let inside = (x as i128) >= (position.x as i128) && (x as i128) < (position.x
                    as i128) + (size.width as i128) && (y as i128) >= (position.y as i128) && (y
                    as i128) < (position.y as i128) + (size.height as i128);
                proof {
                    assert(inside == in_box(position, size, x as int, y as int));
                }
                let ghost before = frame@;
                if inside {
                    frame.push(0x5e);
                    frame.push(0x48);
                    frame.push(0xe8);
                    frame.push(0xff);  // box color
                } else {
                    frame.push(0x48);
                    frame.push(0xb2);
                    frame.push(0xe8);
                    frame.push(0xff);  // background color
                }
                proof {
                    let w = width as int;
                    let off = pixel_offset(w, x as int, y as int);
                    assert(off == before.len());
                    assert(frame@.subrange(off, off + 4) =~= pixel_bytes(
                        position,
                        size,
                        x as int,
                        y as int,
                    ));
                    assert forall|x2: int, y2: int|
                        0 <= x2 < width && 0 <= y2 < y implies frame@.subrange(
                        pixel_offset(w, x2, y2),
                        pixel_offset(w, x2, y2) + 4,
                    ) == #[trigger] pixel_bytes(position, size, x2, y2) by {
                        lemma_mul_inequality(y2 + 1, y as int, w);
                        assert((y2 + 1) * w == y2 * w + w) by (nonlinear_arith);
                        assert(pixel_offset(w, x2, y2) + 4 <= before.len());
                        assert(frame@.subrange(pixel_offset(w, x2, y2), pixel_offset(w, x2, y2) + 4)
                            =~= before.subrange(pixel_offset(w, x2, y2), pixel_offset(w, x2, y2) + 4));
                    }
                    assert forall|x2: int| 0 <= x2 < x implies frame@.subrange(
                        pixel_offset(w, x2, y as int),
                        pixel_offset(w, x2, y as int) + 4,
                    ) == #[trigger] pixel_bytes(position, size, x2, y as int) by {
                        assert(pixel_offset(w, x2, y as int) + 4 <= before.len());
                        assert(frame@.subrange(
                            pixel_offset(w, x2, y as int),
                            pixel_offset(w, x2, y as int) + 4,
                        ) =~= before.subrange(
                            pixel_offset(w, x2, y as int),
                            pixel_offset(w, x2, y as int) + 4,
                        ));
                    }
                }
                x = x + 1;
            }
            proof {
                assert((y as int + 1) * (width as int) == (y as int) * (width as int) + (width
                    as int)) by (nonlinear_arith);
            }
            y = y + 1;
        }
        proof {
            assert(frame@.len() == self.spec_width() * self.spec_height() * 4) by (nonlinear_arith)
                requires
                    frame@.len() == 4 * ((height as int) * (width as int)),
                    width as int == self.spec_width(),
                    height as int == self.spec_height(),
            ;
        }
        frame
    }

    /// Whether the state invariants hold, decided at run time, for hosts
    /// that hold no proof of how this state was built. Construction and
    /// every operation of this type preserve the invariants, so this is
    /// `true` for any state reached through them alone.
    #[verifier::loop_isolation(false)]
    pub fn is_consistent(&self) -> (b: bool)
        ensures
            b == self.wf(),
    {
        if !self.world.is_wf() {
            return false;
        }
        let player_keys = self.world.get_storage::<Player>().keys();
        if player_keys.len() != 1 {
            proof {
                if self.players().dom() == set![self.spec_player()] {
                    assert(self.players().dom().contains(self.spec_player()));
                    assert(player_keys@.contains(self.spec_player()));
                    assert(player_keys@.len() >= 1);
                    if player_keys@.len() >= 2 {
                        assert(self.players().dom().contains(player_keys@[0]));
                        assert(self.players().dom().contains(player_keys@[1]));
                        assert(player_keys@[0] == self.spec_player());
                        assert(player_keys@[1] == self.spec_player());
                        assert(false);
                    }
                }
            }
            return false;
        }
        let listed = player_keys[0];
        if listed != self.player {
            proof {
                assert(self.players().dom().contains(listed));
            }
            return false;
        }
        if self.world.get_component::<Position>(self.player).is_none() {
            return false;
        }
        if self.world.get_component::<Velocity>(self.player).is_none() {
            return false;
        }
        if self.world.get_component::<Size>(self.player).is_none() {
            return false;
        }
        proof {
            assert(self.players().dom() =~= set![self.spec_player()]) by {
                assert(self.players().dom().contains(self.spec_player()));
                assert forall|e: Entity| self.players().dom().contains(e) implies set![
                    self.spec_player(),
                ].contains(e) by {
                    assert(player_keys@.contains(e));
                    let j = choose|j: int| 0 <= j < player_keys@.len() && player_keys@[j] == e;
                    assert(j == 0);
                }
            }
        }
        let vel_keys = self.world.get_storage::<Velocity>().keys();
        let n = vel_keys.len();
        let mut k: usize = 0;
        while k < n
            invariant
                k <= n,
                forall|j: int|
                    0 <= j < k ==> self.positions().dom().contains(#[trigger] vel_keys@[j]),
                forall|j: int|
                    0 <= j < k ==> velocity_in_range(
                        self.velocities()[#[trigger] vel_keys@[j]],
                    ),
            decreases n - k,
        {
            let e = vel_keys[k];
            if self.world.get_component::<Position>(e).is_none() {
                proof {
                    assert(self.velocities().dom().contains(e));
                    assert(!self.positions().dom().contains(e));
                }
                return false;
            }
            let v = *self.world.get_component::<Velocity>(e).unwrap();
            if v.x < -MAX_SPEED || v.x > MAX_SPEED || v.y < -MAX_SPEED || v.y > MAX_SPEED {
                proof {
                    assert(self.velocities()[e] == v);
                    assert(!velocity_in_range(self.velocities()[e]));
                }
                return false;
            }
            k = k + 1;
        }
        proof {
            assert forall|e: Entity| #[trigger] self.velocities().dom().contains(e) implies self
                .positions().dom().contains(e) && velocity_in_range(self.velocities()[e]) by {
                assert(vel_keys@.contains(e));
                let j = choose|j: int| 0 <= j < vel_keys@.len() && vel_keys@[j] == e;
                assert(self.positions().dom().contains(vel_keys@[j]));
                assert(velocity_in_range(self.velocities()[vel_keys@[j]]));
            }
        }
        let w64 = self.width as u64;
        let h64 = self.height as u64;
        proof {
            assert(w64 as int * h64 as int <= 0xffff_fffe_0000_0001) by (nonlinear_arith)
                requires
                    w64 <= 0xffff_ffffu64,
                    h64 <= 0xffff_ffffu64,
            ;
        }
        let area = w64 * h64;
        if area > 0x3fff_ffff {
            return false;
        }
        proof {
            assert(self.velocities().dom().subset_of(self.positions().dom()));
            assert(self.spec_width() * self.spec_height() == area as int);
            assert(self.spec_width() * self.spec_height() * 4 <= u32::MAX);
        }
        true
    }

    /// Read access to the world that owns all entity and component data.
    /// Mutation goes only through this type's own operations, which keep
    /// the state invariants.
    pub fn world(&self) -> (w: &World)
        ensures
            *w == self.spec_world(),
    {
        &self.world
    }
}

/// The speed limit holds in every reachable state: construction establishes
/// the state invariants and every operation preserves them, so however many
/// control commands have been applied, the player's velocity components
/// never leave `[-MAX_SPEED, MAX_SPEED]`.
pub proof fn lemma_player_speed_limit(s: GameState)
    requires
        s.wf(),
    ensures
        velocity_in_range(s.player_velocity()),
{
}

/// Velocity clamp: one control step on an axis never leaves the speed
/// limit, whatever the component held before. Repeated commands in one
/// direction therefore never drive a component past `MAX_SPEED`, nor below
/// `-MAX_SPEED`.
pub proof fn lemma_velocity_clamp(v: int)
    ensures
        -MAX_SPEED <= steer_pos(v) <= MAX_SPEED,
        -MAX_SPEED <= steer_neg(v) <= MAX_SPEED,
{
}

/// Direction reversal: a command against opposing momentum first resets the
/// component to zero and then steps, so steering left against any positive
/// horizontal velocity yields exactly `-1` — not the previous value minus
/// one — and symmetrically for the other direction.
pub proof fn lemma_direction_reversal(v: int)
    ensures
        v > 0 ==> steer_neg(v) == -1,
        v < 0 ==> steer_pos(v) == 1,
{
}

/// Integration: one simulation step adds the velocity into the position
/// exactly, coordinate-wise, whenever both sums are representable.
pub proof fn lemma_integration_exact(p: Position, v: Velocity)
    requires
        i64::MIN <= p.x + v.x <= i64::MAX,
        i64::MIN <= p.y + v.y <= i64::MAX,
    ensures
        integrated(p, v) == (Position { x: (p.x + v.x) as i64, y: (p.y + v.y) as i64 }),
{
}

/// Coordinate addition for the integration step: exact whenever the sum is
/// representable, stopping at the representable ends instead of wrapping.
fn add_sat(a: i64, b: i64) -> (r: i64)
    ensures
        r as int == sat_add(a as int, b as int),
{
    if b >= 0 {
        if a > i64::MAX - b {
            i64::MAX
        } else {
            a + b
        }
    } else {
        if a < i64::MIN - b {
            i64::MIN
        } else {
            a + b
        }
    }
}

/// `v` clamped to the closed range `[-MAX_SPEED, MAX_SPEED]`.
fn clamp_to_limit(v: i64) -> (r: i64)
    ensures
        r as int == clamp_speed(v as int),
{
    if v < -MAX_SPEED {
        -MAX_SPEED
    } else if v > MAX_SPEED {
        MAX_SPEED
    } else {
        v
    }
}

} // verus!
