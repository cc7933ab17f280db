use vstd::prelude::*;

use rand::seq::SliceRandom;

use crate::particle::Particle;
use crate::server::particles::{keys_near, lemma_block_read_after_write};
use crate::server::game::{inside_block, World, WorldView, WriteState, WriteStateView};

verus! {

/// Where a particle at `pos` goes, and whether it moved: straight down when
/// the cell below holds air, else one row down and `sideways` columns over
/// when that cell holds air, else nowhere.
pub open spec fn sand_target(read: WorldView, pos: (i32, i32), sideways: int) -> ((i32, i32), bool) {
    let below = (pos.0, (pos.1 + 1) as i32);
    let aside = ((pos.0 + sideways) as i32, (pos.1 + 1) as i32);
    if read.particle(below) == Particle::Air {
        (below, true)
    } else if read.particle(aside) == Particle::Air {
        (aside, true)
    } else {
        (pos, false)
    }
}

/// The write state after the particle at `pos` is simulated against `read`,
/// with `sideways` as the column offset that chance picked: sand is written
/// where it goes (marking the block dirty when it moved); nothing else is written.
pub open spec fn particle_step(
    read: WorldView,
    write: WriteStateView,
    pos: (i32, i32),
    particle: Particle,
    sideways: int,
) -> WriteStateView {
    match particle {
        Particle::Sand => {
            let (target, moved) = sand_target(read, pos, sideways);
            write.after_set_cell(particle, target, moved)
        },
        _ => write,
    }
}

/// Every column offset that a falling grain may take.
pub open spec fn is_sideways(s: int) -> bool {
    -1 <= s <= 1
}

/// The position of a particle leaves room for a move one row down and one column
/// either way.
pub open spec fn movable(pos: (i32, i32)) -> bool {
    &&& i32::MIN < pos.0 < i32::MAX
    &&& pos.1 < i32::MAX
}

/// A grain of sand either stays where it is, or moves exactly one row down
/// and at most one column aside, into a cell that holds air in the world it
/// is simulated against; it is marked as moved exactly when it moves.
pub proof fn lemma_sand_falls(read: WorldView, pos: (i32, i32), sideways: int)
    requires
        movable(pos),
        is_sideways(sideways),
    ensures
        ({
            let (target, moved) = sand_target(read, pos, sideways);
            &&& moved <==> target != pos
            &&& moved ==> target.1 == pos.1 + 1 && -1 <= target.0 - pos.0 <= 1 && read.particle(target)
                == Particle::Air
            &&& !moved ==> target == pos
        }),
{
}

/// Where a grain of sand goes: straight down when the cell below holds air;
/// else, when the cell one row down and `sideways` columns over holds air,
/// there, whatever block that cell lies in; else it stays. It is marked as
/// moved exactly when it goes.
pub proof fn lemma_sand_target_cases(read: WorldView, pos: (i32, i32), sideways: int)
    requires
        movable(pos),
        is_sideways(sideways),
    ensures
        read.particle((pos.0, (pos.1 + 1) as i32)) == Particle::Air ==> sand_target(read, pos, sideways) == (
        (pos.0, (pos.1 + 1) as i32), true),
        read.particle((pos.0, (pos.1 + 1) as i32)) != Particle::Air && read.particle(
            ((pos.0 + sideways) as i32, (pos.1 + 1) as i32),
        ) == Particle::Air ==> sand_target(read, pos, sideways) == (
        ((pos.0 + sideways) as i32, (pos.1 + 1) as i32), true),
        read.particle((pos.0, (pos.1 + 1) as i32)) != Particle::Air && read.particle(
            ((pos.0 + sideways) as i32, (pos.1 + 1) as i32),
        ) != Particle::Air ==> sand_target(read, pos, sideways) == (pos, false),
{
}

/// A grain of sand is written where it goes: into the block being written
/// when that cell lies inside it (which then holds sand there), else onto
/// the queue of moves, as its last entry, leaving the block as it was.
pub proof fn lemma_sand_lands(read: WorldView, write: WriteStateView, pos: (i32, i32), sideways: int)
    requires
        write.wf(),
        movable(pos),
        is_sideways(sideways),
    ensures
        ({
            let (target, moved) = sand_target(read, pos, sideways);
            let after = particle_step(read, write, pos, Particle::Sand, sideways);
            let bp = write.block.pos;
            &&& after.block.pos == bp
            &&& (bp.0 <= target.0 < bp.0 + 8 && bp.1 <= target.1 < bp.1 + 8) ==> after.moves == write.moves && after.block.particle(
                ((target.0 - bp.0) as i32, (target.1 - bp.1) as i32),
            ) == Particle::Sand && after.block.dirty == (write.block.dirty || moved)
            &&& !(bp.0 <= target.0 < bp.0 + 8 && bp.1 <= target.1 < bp.1 + 8) ==> after.moves == write.moves.push((target, Particle::Sand))
                && after.block == write.block
        }),
{
    let (target, moved) = sand_target(read, pos, sideways);
    let bp = write.block.pos;
    if inside_block(target, bp) {
        let local = ((target.0 - bp.0) as i32, (target.1 - bp.1) as i32);
        lemma_block_read_after_write(write.block, local, Particle::Sand, moved, local);
    }
}

/// Simulating a particle other than sand writes nothing.
pub proof fn lemma_only_sand_moves(
    read: WorldView,
    write: WriteStateView,
    pos: (i32, i32),
    particle: Particle,
    sideways: int,
)
    requires
        particle != Particle::Sand,
    ensures
        particle_step(read, write, pos, particle, sideways) == write,
{
}

/// Picks one element of `choices` at random.
///
/// Calls `rand::seq::SliceRandom::choose` on the slice, driven by the
/// thread-local generator of `rand::thread_rng()`. The crate's source returns
/// `None` for an empty slice and otherwise a reference to the element at a
/// random index; the contract claims that much. Which element comes back is
/// chance, and left unsaid.
#[verifier::external_body]
fn choose_random(choices: &[i32]) -> (r: Option<i32>)
    ensures
        r is None <==> choices@.len() == 0,
        r matches Some(v) ==> choices@.contains(v),
{
    choices.choose(&mut rand::thread_rng()).copied()
}

/// Simulates one particle at a global position with a given column offset.
pub fn update_particle_with(
    global_pos: (i32, i32),
    particle: Particle,
    sideways: i32,
    read: &World,
    write: &mut WriteState,
)
    requires
        read@.wf(),
        old(write)@.wf(),
        movable(global_pos),
        is_sideways(sideways as int),
    ensures
        final(write)@ == particle_step(read@, old(write)@, global_pos, particle, sideways as int),
        final(write)@.wf(),
        final(write)@.block.pos == old(write)@.block.pos,
        keys_near(old(write)@.block.entries) ==> keys_near(final(write)@.block.entries),
{
    let (x, y) = global_pos;
    match particle {
        Particle::Sand => {
            let new_y = y + 1;
            let new_x = x + sideways;
            if read.is_empty((x, new_y)) {
                write.set_cell(particle, (x, new_y), true);
            } else if read.is_empty((new_x, new_y)) {
                write.set_cell(particle, (new_x, new_y), true);
            } else {
                write.set_cell(particle, (x, y), false);
            }
        },
        _ => {},
    }
}

/// Simulates one particle at a global position: a grain of sand falls one
/// row, straight down or, where that cell is taken, one column to a side
/// picked at random (or not at all); other particles stay.
pub fn update_particle(global_pos: (i32, i32), particle: Particle, read: &World, write: &mut WriteState)
    requires
        read@.wf(),
        old(write)@.wf(),
        movable(global_pos),
    ensures
        exists|s: int|
            is_sideways(s) && final(write)@ == #[trigger] particle_step(read@, old(write)@, global_pos, particle, s),
        final(write)@.wf(),
        final(write)@.block.pos == old(write)@.block.pos,
        keys_near(old(write)@.block.entries) ==> keys_near(final(write)@.block.entries),
{
    match particle {
        Particle::Sand => {
            let choices: [i32; 3] = [-1, 0, 1];
            let picked = choose_random(&choices);
            assert(choices@ == seq![-1i32, 0, 1]);
            let sideways = picked.unwrap();
            update_particle_with(global_pos, particle, sideways, read, write);
            assert(particle_step(read@, old(write)@, global_pos, particle, sideways as int) == write@);
        },
        _ => {
            assert(particle_step(read@, old(write)@, global_pos, particle, 0) == write@);
        },
    }
}

} // verus!
