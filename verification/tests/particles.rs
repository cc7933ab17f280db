use sandmp::particle::Particle;
use sandmp::server::particles::{get_color, ParticleBlock, BLOCK_SIZE, PARTICLES_IN_ROW, TEXTURE_LEN};

#[test]
fn constants_describe_the_grid() {
    assert_eq!(BLOCK_SIZE, 8);
    assert_eq!(PARTICLES_IN_ROW, 64);
    assert_eq!(TEXTURE_LEN, 192);
}

#[test]
fn new_block_is_empty_clean_and_black() {
    let b = ParticleBlock::new((8, 16));
    assert_eq!(b.get_pos(), (8, 16));
    assert!(!b.is_dirty());
    assert!(!b.is_updated());
    assert!(b.all_particles().is_empty());
    assert_eq!(b.get_texture().len(), 192);
    assert!(b.get_texture().iter().all(|&c| c == 0));
    assert_eq!(*b.get_particle((3, 4)), Particle::Air);
    assert_eq!(*b.get_particle((-2, 40)), Particle::Air);
}

#[test]
fn written_cell_reads_back_and_paints_its_pixel() {
    let mut b = ParticleBlock::new((8, 16));
    b.set_particle((1, 2), Particle::Sand, false);
    assert_eq!(*b.get_particle((1, 2)), Particle::Sand);
    assert_eq!(*b.get_particle((2, 1)), Particle::Air);
    assert!(b.is_updated());
    assert!(!b.is_dirty());
    let t = b.get_texture();
    assert_eq!(&t[51..54], &[195, 195, 0]);
    assert_eq!(t.iter().filter(|&&c| c != 0).count(), 2);
    assert_eq!(b.all_particles(), vec![((9, 18), Particle::Sand)]);
}

#[test]
fn overwriting_a_cell_keeps_one_entry_and_repaints() {
    let mut b = ParticleBlock::new((0, 0));
    b.set_particle((7, 7), Particle::Sand, false);
    b.set_particle((0, 0), Particle::Sand, false);
    b.set_particle((7, 7), Particle::Air, true);
    assert_eq!(*b.get_particle((7, 7)), Particle::Air);
    assert!(b.is_dirty());
    assert_eq!(&b.get_texture()[189..192], &[0, 0, 0]);
    assert_eq!(b.all_particles(), vec![((7, 7), Particle::Air), ((0, 0), Particle::Sand)]);
}

#[test]
fn dirty_block_stays_dirty() {
    let mut b = ParticleBlock::new((0, 0));
    b.set_particle((1, 1), Particle::Sand, true);
    b.set_particle((2, 2), Particle::Sand, false);
    assert!(b.is_dirty());
}

#[test]
fn updated_flag_can_be_cleared() {
    let mut b = ParticleBlock::new((0, 0));
    b.set_particle((1, 1), Particle::Sand, false);
    b.set_updated(false);
    assert!(!b.is_updated());
    b.updated = true;
    assert!(b.is_updated());
}

#[test]
fn negative_position_inside_block_paints_previous_row() {
    let mut b = ParticleBlock::new((0, 8));
    b.set_particle((-1, 1), Particle::Sand, true);
    assert_eq!(&b.get_texture()[21..24], &[195, 195, 0]);
    assert_eq!(b.all_particles(), vec![((-1, 9), Particle::Sand)]);
}

#[test]
fn colors_of_particles() {
    assert_eq!(get_color(Particle::Sand), (195, 195, 0));
    assert_eq!(get_color(Particle::Air), (0, 0, 0));
    assert_eq!(get_color(Particle::Boundary), (0, 0, 0));
}

#[test]
fn clone_is_an_equal_copy() {
    let mut b = ParticleBlock::new((24, 32));
    b.set_particle((5, 6), Particle::Sand, true);
    let c = b.clone();
    assert_eq!(c.get_pos(), (24, 32));
    assert_eq!(c.is_dirty(), b.is_dirty());
    assert_eq!(c.is_updated(), b.is_updated());
    assert_eq!(c.all_particles(), b.all_particles());
    assert_eq!(c.get_texture(), b.get_texture());
}

#[test]
fn texture_shows_the_colour_of_every_cell() {
    let mut b = ParticleBlock::new((0, 0));
    b.set_particle((2, 3), Particle::Sand, false);
    b.set_particle((7, 0), Particle::Sand, false);
    b.set_particle((2, 3), Particle::Air, false);
    b.set_particle((0, 7), Particle::Boundary, false);
    for x in 0..8 {
        for y in 0..8 {
            let (r, g, bl) = get_color(*b.get_particle((x, y)));
            let i = (3 * (x + 8 * y)) as usize;
            assert_eq!(&b.get_texture()[i..i + 3], &[r, g, bl]);
        }
    }
}

#[test]
fn all_particles_lists_each_written_cell_once() {
    let mut b = ParticleBlock::new((16, 8));
    b.set_particle((1, 1), Particle::Sand, false);
    b.set_particle((2, 1), Particle::Sand, false);
    b.set_particle((1, 1), Particle::Air, false);
    let all = b.all_particles();
    assert_eq!(all.len(), 2);
    assert!(all.contains(&((17, 9), Particle::Air)));
    assert!(all.contains(&((18, 9), Particle::Sand)));
}
