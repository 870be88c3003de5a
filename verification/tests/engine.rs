//! Tests for the simulation core: world setup, the control protocol, the
//! integration step and the rasterizer.

use engine::{Direction, GameState, Position, Size, Velocity};

fn player_velocity(state: &GameState) -> Velocity {
    *state
        .world()
        .get_component::<Velocity>(state.player())
        .expect("the player always has a velocity")
}

fn player_position(state: &GameState) -> Position {
    *state
        .world()
        .get_component::<Position>(state.player())
        .expect("the player always has a position")
}

fn pixel(frame: &[u8], width: u32, x: u32, y: u32) -> [u8; 4] {
    let offset = ((y * width + x) * 4) as usize;
    [frame[offset], frame[offset + 1], frame[offset + 2], frame[offset + 3]]
}

const BOX_COLOR: [u8; 4] = [0x5e, 0x48, 0xe8, 0xff];
const BACKGROUND_COLOR: [u8; 4] = [0x48, 0xb2, 0xe8, 0xff];

#[test]
fn new_world_seeds_one_player() {
    let state = GameState::new(320, 240);
    assert_eq!(state.width(), 320);
    assert_eq!(state.height(), 240);
    assert_eq!(player_position(&state), Position { x: 100, y: 100 });
    assert_eq!(player_velocity(&state), Velocity { x: 0, y: 0 });
    assert_eq!(
        state.world().get_component::<Size>(state.player()),
        Some(&Size { width: 50, height: 50 })
    );
    assert!(state.is_consistent());
}

#[test]
fn velocity_clamps_at_limit() {
    let mut state = GameState::new(320, 240);
    for _ in 0..12 {
        state.update_player_velocity(Direction::Right);
        assert!(player_velocity(&state).x <= 5);
    }
    assert_eq!(player_velocity(&state).x, 5);
    for _ in 0..20 {
        state.update_player_velocity(Direction::Left);
        assert!(player_velocity(&state).x >= -5);
    }
    assert_eq!(player_velocity(&state).x, -5);
    for _ in 0..12 {
        state.update_player_velocity(Direction::Down);
    }
    assert_eq!(player_velocity(&state).y, 5);
    for _ in 0..20 {
        state.update_player_velocity(Direction::Up);
    }
    assert_eq!(player_velocity(&state).y, -5);
}

#[test]
fn direction_reversal_resets_momentum() {
    let mut state = GameState::new(320, 240);
    state.update_player_velocity(Direction::Right);
    state.update_player_velocity(Direction::Right);
    state.update_player_velocity(Direction::Right);
    assert_eq!(player_velocity(&state).x, 3);
    state.update_player_velocity(Direction::Left);
    // Reset to zero, then one step left: -1, not 3 - 1.
    assert_eq!(player_velocity(&state).x, -1);
    state.update_player_velocity(Direction::Up);
    state.update_player_velocity(Direction::Up);
    assert_eq!(player_velocity(&state).y, -2);
    state.update_player_velocity(Direction::Down);
    assert_eq!(player_velocity(&state).y, 1);
}

#[test]
fn opposing_inputs_in_one_tick_let_the_last_win() {
    let mut state = GameState::new(320, 240);
    state.update_player_velocity(Direction::Up);
    state.update_player_velocity(Direction::Down);
    // The second call sees -1, resets the opposing momentum, then steps.
    assert_eq!(player_velocity(&state).y, 1);
    state.update_player_velocity(Direction::Left);
    state.update_player_velocity(Direction::Right);
    assert_eq!(player_velocity(&state).x, 1);
}

#[test]
fn neutral_direction_is_a_no_op() {
    let mut state = GameState::new(320, 240);
    state.update_player_velocity(Direction::Right);
    state.update_player_velocity(Direction::Neutral);
    assert_eq!(player_velocity(&state), Velocity { x: 1, y: 0 });
}

#[test]
fn decay_zeroes_only_the_requested_axis() {
    let mut state = GameState::new(320, 240);
    state.update_player_velocity(Direction::Right);
    state.update_player_velocity(Direction::Right);
    state.update_player_velocity(Direction::Down);
    assert_eq!(player_velocity(&state), Velocity { x: 2, y: 1 });
    state.zero_player_vel(true, false);
    assert_eq!(player_velocity(&state), Velocity { x: 0, y: 1 });
    state.zero_player_vel(false, true);
    assert_eq!(player_velocity(&state), Velocity { x: 0, y: 0 });
    state.zero_player_vel(false, false);
    assert_eq!(player_velocity(&state), Velocity { x: 0, y: 0 });
}

#[test]
fn integration_adds_velocity_once_per_step() {
    let mut state = GameState::new(320, 240);
    state.update_player_velocity(Direction::Right);
    state.update_player_velocity(Direction::Right);
    state.update_player_velocity(Direction::Down);
    assert_eq!(player_position(&state), Position { x: 100, y: 100 });
    state.update_entity_positions();
    assert_eq!(player_position(&state), Position { x: 102, y: 101 });
    state.update_entity_positions();
    assert_eq!(player_position(&state), Position { x: 104, y: 102 });
    // Velocity is read, not consumed, by the step.
    assert_eq!(player_velocity(&state), Velocity { x: 2, y: 1 });
}

#[test]
fn rasterization_containment() {
    let mut state = GameState::new(320, 240);
    let frame = state.generate_frame();
    assert_eq!(frame.len(), 320 * 240 * 4);
    assert_eq!(pixel(&frame, 320, 125, 125), BOX_COLOR);
    assert_eq!(pixel(&frame, 320, 0, 0), BACKGROUND_COLOR);
    // Last interior row/column, then first exterior.
    assert_eq!(pixel(&frame, 320, 149, 149), BOX_COLOR);
    assert_eq!(pixel(&frame, 320, 150, 150), BACKGROUND_COLOR);
    // Edges of the box.
    assert_eq!(pixel(&frame, 320, 100, 100), BOX_COLOR);
    assert_eq!(pixel(&frame, 320, 99, 100), BACKGROUND_COLOR);
    assert_eq!(pixel(&frame, 320, 100, 99), BACKGROUND_COLOR);
    // One step with zero velocity changes nothing.
    state.update_entity_positions();
    let same = state.generate_frame();
    assert_eq!(frame, same);
}

#[test]
fn end_to_end_scenario() {
    let mut state = GameState::new(320, 240);
    state.update_player_velocity(Direction::Right);
    assert_eq!(player_velocity(&state).x, 1);
    state.update_player_velocity(Direction::Right);
    assert_eq!(player_velocity(&state).x, 2);
    state.update_player_velocity(Direction::Right);
    assert_eq!(player_velocity(&state).x, 3);
    state.zero_player_vel(false, true); // no vertical key held this tick
    assert_eq!(player_velocity(&state), Velocity { x: 3, y: 0 });
    state.update_entity_positions();
    assert_eq!(player_position(&state), Position { x: 103, y: 100 });
    let frame = state.generate_frame();
    // The box occupies columns [103, 153) and rows [100, 150).
    assert_eq!(pixel(&frame, 320, 103, 100), BOX_COLOR);
    assert_eq!(pixel(&frame, 320, 102, 100), BACKGROUND_COLOR);
    assert_eq!(pixel(&frame, 320, 152, 149), BOX_COLOR);
    assert_eq!(pixel(&frame, 320, 153, 100), BACKGROUND_COLOR);
    assert_eq!(pixel(&frame, 320, 103, 99), BACKGROUND_COLOR);
    assert_eq!(pixel(&frame, 320, 103, 149), BOX_COLOR);
    assert_eq!(pixel(&frame, 320, 103, 150), BACKGROUND_COLOR);
    assert!(state.is_consistent());
}

#[test]
fn every_frame_pixel_is_box_or_background() {
    let state = GameState::new(64, 48);
    let frame = state.generate_frame();
    assert_eq!(frame.len(), 64 * 48 * 4);
    for y in 0..48u32 {
        for x in 0..64u32 {
            let p = pixel(&frame, 64, x, y);
            assert!(p == BOX_COLOR || p == BACKGROUND_COLOR);
        }
    }
}
