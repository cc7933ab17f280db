use sandmp::particle::Particle;
use sandmp::server::game::{World, WriteState};
use sandmp::server::particles::ParticleBlock;
use sandmp::server::simulation::{update_particle, update_particle_with};
use sandmp::server::update;

fn run_with(read: &World, pos: (i32, i32), particle: Particle, sideways: i32) -> (Vec<((i32, i32), Particle)>, bool, Vec<((i32, i32), Particle)>) {
    let mut ws = WriteState::new(ParticleBlock::new((0, 0)));
    update_particle_with(pos, particle, sideways, read, &mut ws);
    let (b, moves) = ws.finish();
    (b.all_particles(), b.is_dirty(), moves)
}

#[test]
fn sand_falls_straight_down() {
    let read = World::new();
    let (cells, dirty, moves) = run_with(&read, (3, 3), Particle::Sand, 1);
    assert_eq!(cells, vec![((3, 4), Particle::Sand)]);
    assert!(dirty);
    assert!(moves.is_empty());
}

#[test]
fn sand_slides_aside_when_below_is_taken() {
    let mut read = World::new();
    read.set_particle((3, 4), Particle::Sand, false);
    let (cells, dirty, _) = run_with(&read, (3, 3), Particle::Sand, 1);
    assert_eq!(cells, vec![((4, 4), Particle::Sand)]);
    assert!(dirty);
    let (cells, _, _) = run_with(&read, (3, 3), Particle::Sand, -1);
    assert_eq!(cells, vec![((2, 4), Particle::Sand)]);
}

#[test]
fn sand_rests_when_blocked() {
    let mut read = World::new();
    read.set_particle((3, 4), Particle::Sand, false);
    read.set_particle((4, 4), Particle::Sand, false);
    let (cells, dirty, _) = run_with(&read, (3, 3), Particle::Sand, 1);
    assert_eq!(cells, vec![((3, 3), Particle::Sand)]);
    assert!(!dirty);
    let (cells, _, _) = run_with(&read, (3, 3), Particle::Sand, 0);
    assert_eq!(cells, vec![((3, 3), Particle::Sand)]);
}

#[test]
fn sand_rests_on_the_floor_of_the_world() {
    let read = World::new();
    for s in [-1, 0, 1] {
        let mut ws = WriteState::new(ParticleBlock::new((0, 56)));
        update_particle_with((3, 63), Particle::Sand, s, &read, &mut ws);
        let (b, moves) = ws.finish();
        assert_eq!(b.all_particles(), vec![((3, 63), Particle::Sand)]);
        assert!(!b.is_dirty());
        assert!(moves.is_empty());
    }
}

#[test]
fn sand_leaving_its_block_is_queued() {
    let read = World::new();
    let (cells, _, moves) = run_with(&read, (3, 7), Particle::Sand, 0);
    assert!(cells.is_empty());
    assert_eq!(moves, vec![((3, 8), Particle::Sand)]);
}

#[test]
fn air_and_boundary_write_nothing() {
    let read = World::new();
    let (cells, dirty, moves) = run_with(&read, (3, 3), Particle::Air, 0);
    assert!(cells.is_empty() && !dirty && moves.is_empty());
    let (cells, _, _) = run_with(&read, (3, 3), Particle::Boundary, 0);
    assert!(cells.is_empty());
}

#[test]
fn random_sideways_stays_within_one_column() {
    let mut read = World::new();
    read.set_particle((3, 4), Particle::Sand, false);
    let mut seen = std::collections::HashSet::new();
    for _ in 0..200 {
        let mut ws = WriteState::new(ParticleBlock::new((0, 0)));
        update_particle((3, 3), Particle::Sand, &read, &mut ws);
        let (b, _) = ws.finish();
        let cells = b.all_particles();
        assert_eq!(cells.len(), 1);
        let pos = cells[0].0;
        assert!(pos == (2, 4) || pos == (4, 4) || pos == (3, 3), "unexpected {:?}", pos);
        seen.insert(pos);
    }
    assert!(seen.len() >= 2);
}

#[test]
fn update_simulates_every_particle_of_the_block() {
    let mut read = World::new();
    read.set_particle((1, 1), Particle::Sand, true);
    read.set_particle((5, 2), Particle::Sand, true);
    read.set_particle((6, 6), Particle::Air, true);
    let mut ws = WriteState::new(ParticleBlock::new((0, 0)));
    update(&read, &mut ws);
    let (b, moves) = ws.finish();
    assert_eq!(b.all_particles(), vec![((1, 2), Particle::Sand), ((5, 3), Particle::Sand)]);
    assert!(b.is_dirty());
    assert!(moves.is_empty());
}

#[test]
fn sand_moves_in_a_write_state_with_a_far_key() {
    let read = World::new();
    let mut b = ParticleBlock::new((0, 0));
    b.set_particle((20, 2), Particle::Sand, false);
    let mut ws = WriteState::new(b);
    update_particle((3, 3), Particle::Sand, &read, &mut ws);
    let (b, _) = ws.finish();
    assert_eq!(*b.get_particle((3, 4)), Particle::Sand);
    assert_eq!(*b.get_particle((20, 2)), Particle::Sand);
}
