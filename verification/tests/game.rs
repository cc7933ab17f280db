use sandmp::particle::Particle;
use sandmp::server::game::{World, WriteState};
use sandmp::server::particles::ParticleBlock;

#[test]
fn new_world_has_sixty_four_blocks_column_by_column() {
    let w = World::new();
    let blocks = w.all_blocks();
    assert_eq!(blocks.len(), 64);
    assert_eq!(blocks[0].get_pos(), (0, 0));
    assert_eq!(blocks[1].get_pos(), (0, 8));
    assert_eq!(blocks[8].get_pos(), (8, 0));
    assert_eq!(blocks[63].get_pos(), (56, 56));
    assert!(w.get_dirty_pos().is_empty());
}

#[test]
fn new_world_is_air_inside_and_boundary_outside() {
    let w = World::new();
    assert_eq!(*w.get_particle((0, 0)), Particle::Air);
    assert_eq!(*w.get_particle((63, 63)), Particle::Air);
    assert_eq!(*w.get_particle((64, 0)), Particle::Boundary);
    assert_eq!(*w.get_particle((0, 64)), Particle::Boundary);
    assert_eq!(*w.get_particle((-8, 0)), Particle::Boundary);
    assert_eq!(*w.get_particle((-1, 5)), Particle::Air);
    assert!(w.is_empty((10, 10)));
    assert!(!w.is_empty((64, 0)));
}

#[test]
fn get_block_floors_to_the_block_origin() {
    let w = World::new();
    assert_eq!(w.get_block((13, 27)).unwrap().get_pos(), (8, 24));
    assert_eq!(w.get_block((-3, 2)).unwrap().get_pos(), (0, 0));
    assert!(w.get_block((64, 0)).is_none());
    assert!(w.get_block((-8, 0)).is_none());
}

#[test]
fn world_write_reads_back_and_marks_block() {
    let mut w = World::new();
    w.set_particle((10, 20), Particle::Sand, true);
    assert_eq!(*w.get_particle((10, 20)), Particle::Sand);
    assert_eq!(*w.get_particle((20, 10)), Particle::Air);
    assert!(!w.is_empty((10, 20)));
    let b = w.get_block((10, 20)).unwrap();
    assert!(b.is_dirty());
    assert!(b.is_updated());
    assert_eq!(w.get_dirty_pos(), vec![(8, 16)]);
}

#[test]
fn write_outside_every_block_changes_nothing() {
    let mut w = World::new();
    w.set_particle((100, 100), Particle::Sand, true);
    assert_eq!(*w.get_particle((100, 100)), Particle::Boundary);
    assert!(w.get_dirty_pos().is_empty());
    assert_eq!(w.all_blocks().len(), 64);
}

#[test]
fn writability_of_positions() {
    let w = World::new();
    assert!(!w.is_writable((-1, 0)));
    assert!(w.is_writable((-1, 1)));
    assert!(w.is_writable((5, 5)));
    assert!(w.is_writable((100, 0)));
}

#[test]
fn dirty_positions_follow_block_order() {
    let mut w = World::new();
    w.set_particle((50, 3), Particle::Sand, true);
    w.set_particle((2, 60), Particle::Sand, true);
    w.set_particle((30, 30), Particle::Sand, false);
    assert_eq!(w.get_dirty_pos(), vec![(0, 56), (48, 0)]);
}

#[test]
fn block_changed_through_get_block_mut() {
    let mut w = World::new();
    {
        let b = w.get_block_mut((3, 3)).unwrap();
        b.set_particle((1, 1), Particle::Sand, false);
    }
    assert_eq!(*w.get_particle((1, 1)), Particle::Sand);
    assert!(w.get_block_mut((70, 3)).is_none());
}

#[test]
fn set_block_replaces_or_appends() {
    let mut w = World::new();
    w.set_particle((1, 1), Particle::Sand, true);
    w.set_block(ParticleBlock::new((0, 0)));
    assert_eq!(*w.get_particle((1, 1)), Particle::Air);
    assert_eq!(w.all_blocks().len(), 64);
    w.set_block(ParticleBlock::new((64, 0)));
    assert_eq!(w.all_blocks().len(), 65);
    assert_eq!(*w.get_particle((64, 0)), Particle::Air);
}

#[test]
fn clear_update_flags_clears_every_flag() {
    let mut w = World::new();
    w.set_particle((1, 1), Particle::Sand, false);
    w.set_particle((40, 40), Particle::Sand, true);
    w.clear_update_flags();
    assert!(w.all_blocks().iter().all(|b| !b.is_updated()));
    assert_eq!(w.get_dirty_pos(), vec![(40, 40)]);
}

#[test]
fn write_state_marks_block_updated() {
    let ws = WriteState::new(ParticleBlock::new((8, 8)));
    assert_eq!(ws.get_block_pos(), (8, 8));
    let (b, moves) = ws.finish();
    assert!(b.is_updated());
    assert!(!b.is_dirty());
    assert!(moves.is_empty());
}

#[test]
fn set_cell_writes_inside_and_queues_outside() {
    let mut ws = WriteState::new(ParticleBlock::new((8, 8)));
    ws.set_cell(Particle::Sand, (9, 9), true);
    ws.set_cell(Particle::Sand, (16, 9), true);
    ws.set_cell(Particle::Sand, (7, 15), false);
    let (b, moves) = ws.finish();
    assert_eq!(*b.get_particle((1, 1)), Particle::Sand);
    assert!(b.is_dirty());
    assert_eq!(b.all_particles(), vec![((9, 9), Particle::Sand)]);
    assert_eq!(moves, vec![((16, 9), Particle::Sand), ((7, 15), Particle::Sand)]);
}

#[test]
fn set_cell_works_on_a_block_with_a_far_key() {
    let mut b = ParticleBlock::new((0, 0));
    b.set_particle((20, 2), Particle::Sand, false);
    let mut ws = WriteState::new(b);
    ws.set_cell(Particle::Sand, (1, 1), true);
    ws.set_cell(Particle::Sand, (9, 1), true);
    assert_eq!(ws.get_block_pos(), (0, 0));
    let (b, moves) = ws.finish();
    assert_eq!(*b.get_particle((1, 1)), Particle::Sand);
    assert_eq!(*b.get_particle((20, 2)), Particle::Sand);
    assert_eq!(moves, vec![((9, 1), Particle::Sand)]);
}

#[test]
fn every_cell_of_the_new_world_reads_back_a_write() {
    let mut w = World::new();
    for x in 0..64 {
        for y in 0..64 {
            assert!(w.is_writable((x, y)));
        }
    }
    w.set_particle((63, 0), Particle::Sand, true);
    w.set_particle((0, 63), Particle::Sand, true);
    assert_eq!(*w.get_particle((63, 0)), Particle::Sand);
    assert_eq!(*w.get_particle((0, 63)), Particle::Sand);
    assert_eq!(*w.get_particle((62, 0)), Particle::Air);
}
