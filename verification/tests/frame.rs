use sandmp::msg::Msg;
use sandmp::particle::Particle;
use sandmp::server::game::World;
use sandmp::server::step;

fn pool() -> rayon::ThreadPool {
    rayon::ThreadPoolBuilder::new().num_threads(2).build().unwrap()
}

fn sand_at(x: i32, y: i32) -> Msg {
    Msg::SetParticle { x, y, particle: Particle::Sand }
}

#[test]
fn requested_sand_falls_one_row_per_frame() {
    let pool = pool();
    let mut read = World::new();
    let mut write = World::new();
    let out = step(&pool, &mut read, &mut write, &vec![sand_at(3, 3)]).unwrap();
    assert_eq!(*read.get_particle((3, 4)), Particle::Sand);
    assert_eq!(*read.get_particle((3, 3)), Particle::Air);
    assert_eq!(*write.get_particle((3, 3)), Particle::Sand);
    assert_eq!(out.len(), 1);
    match &out[0] {
        Msg::TextureUpdate { x, y, data } => {
            assert_eq!((*x, *y), (0, 0));
            assert_eq!(data.len(), 192);
            assert_eq!(&data[105..108], &[195, 195, 0]);
            assert_eq!(data.iter().filter(|&&c| c != 0).count(), 2);
        },
        other => panic!("unexpected {:?}", other),
    }
    let out = step(&pool, &mut read, &mut write, &vec![]).unwrap();
    assert_eq!(*read.get_particle((3, 5)), Particle::Sand);
    assert_eq!(out.len(), 1);
}

#[test]
fn sand_crossing_into_the_next_block_is_written_there() {
    let pool = pool();
    let mut read = World::new();
    let mut write = World::new();
    step(&pool, &mut read, &mut write, &vec![sand_at(3, 7)]).unwrap();
    assert_eq!(*read.get_particle((3, 8)), Particle::Sand);
    assert_eq!(*read.get_particle((3, 7)), Particle::Air);
    assert_eq!(read.get_dirty_pos(), vec![(0, 8)]);
}

#[test]
fn frame_with_nothing_to_do_sends_nothing() {
    let pool = pool();
    let mut read = World::new();
    let mut write = World::new();
    let out = step(&pool, &mut read, &mut write, &vec![]).unwrap();
    assert!(out.is_empty());
    assert_eq!(read.all_blocks().len(), 64);
}

#[test]
fn resting_sand_stops_the_updates() {
    let pool = pool();
    let mut read = World::new();
    let mut write = World::new();
    let out = step(&pool, &mut read, &mut write, &vec![sand_at(3, 63)]).unwrap();
    assert_eq!(out.len(), 1);
    assert_eq!(*read.get_particle((3, 63)), Particle::Sand);
    assert!(read.get_dirty_pos().is_empty());
    let out = step(&pool, &mut read, &mut write, &vec![]).unwrap();
    assert!(out.is_empty());
}

#[test]
fn texture_messages_are_ignored_as_input() {
    let pool = pool();
    let mut read = World::new();
    let mut write = World::new();
    let msgs = vec![Msg::TextureUpdate { x: 0, y: 0, data: vec![1, 2, 3] }];
    let out = step(&pool, &mut read, &mut write, &msgs).unwrap();
    assert!(out.is_empty());
}

#[test]
fn request_that_paints_outside_the_texture_is_refused() {
    let pool = pool();
    let mut read = World::new();
    let mut write = World::new();
    let r = step(&pool, &mut read, &mut write, &vec![sand_at(5, 5), sand_at(-1, 0)]);
    assert_eq!(r, Err((-1, 0)));
}

#[test]
fn request_outside_the_world_is_dropped() {
    let pool = pool();
    let mut read = World::new();
    let mut write = World::new();
    let out = step(&pool, &mut read, &mut write, &vec![sand_at(500, 3)]).unwrap();
    assert!(out.is_empty());
}
