use vstd::prelude::*;

use crate::particle::Particle;
use crate::server::particles::{
    keys_near, lemma_block_read_after_write, lemma_store_keys_near, lemma_store_wf, pixel_in_texture,
    ParticleBlock, ParticleBlockView, BLOCKS_IN_WORLD_ROW, BLOCK_SIZE, PARTICLES_IN_ROW,
};

verus! {

/// The remainder of `a` divided by `b` as Rust's `%` computes it on integers:
/// truncated, with the sign of `a`.
pub open spec fn trunc_rem(a: int, b: int) -> int {
    if a >= 0 {
        a % b
    } else {
        -((-a) % b)
    }
}

/// The position of the block that a global position falls into: each
/// coordinate minus its truncated remainder by `BLOCK_SIZE`.
pub open spec fn block_origin(global_pos: (i32, i32)) -> (i32, i32) {
    (
        (global_pos.0 - trunc_rem(global_pos.0 as int, BLOCK_SIZE as int)) as i32,
        (global_pos.1 - trunc_rem(global_pos.1 as int, BLOCK_SIZE as int)) as i32,
    )
}

/// The position inside its block of a global position: the truncated
/// remainders by `BLOCK_SIZE`.
pub open spec fn pos_in_block(global_pos: (i32, i32)) -> (i32, i32) {
    (
        trunc_rem(global_pos.0 as int, BLOCK_SIZE as int) as i32,
        trunc_rem(global_pos.1 as int, BLOCK_SIZE as int) as i32,
    )
}

/// Whether a sequence of blocks holds one at `pos`.
pub open spec fn has_block_at(blocks: Seq<ParticleBlockView>, pos: (i32, i32)) -> bool {
    exists|i: int| 0 <= i < blocks.len() && #[trigger] blocks[i].pos == pos
}

/// Where the block at `pos` stands in a sequence of blocks that holds one.
pub open spec fn block_index(blocks: Seq<ParticleBlockView>, pos: (i32, i32)) -> int {
    choose|i: int| 0 <= i < blocks.len() && #[trigger] blocks[i].pos == pos
}

/// The positions of the dirty blocks, in the order of the blocks.
pub open spec fn dirty_positions(blocks: Seq<ParticleBlockView>) -> Seq<(i32, i32)>
    decreases blocks.len(),
{
    if blocks.len() == 0 {
        Seq::empty()
    } else {
        let rest = dirty_positions(blocks.drop_last());
        if blocks.last().dirty {
            rest.push(blocks.last().pos)
        } else {
            rest
        }
    }
}

/// The blocks of a new world: `BLOCKS_IN_WORLD_ROW` rows of them, column
/// by column, block `k` at `(k / 8 * 8, k % 8 * 8)`.
pub open spec fn initial_blocks() -> Seq<ParticleBlockView> {
    Seq::new(
        64,
        |k: int|
            ParticleBlockView::empty_at(
                ((k / BLOCKS_IN_WORLD_ROW as int * BLOCK_SIZE as int) as i32, (k
                    % BLOCKS_IN_WORLD_ROW as int * BLOCK_SIZE as int) as i32),
            ),
    )
}

/// A block position at least `BLOCK_SIZE` away from the ends of `i32` along
/// each axis: the block's far corner, and every cell within `BLOCK_SIZE` of
/// its origin, are `i32` pairs, as are the cells one step from them.
pub open spec fn pos_bounded(pos: (i32, i32)) -> bool {
    &&& i32::MIN + BLOCK_SIZE <= pos.0 <= i32::MAX - BLOCK_SIZE
    &&& i32::MIN + BLOCK_SIZE <= pos.1 <= i32::MAX - BLOCK_SIZE
}

/// The `(i, j)`-th point of the grid of `BLOCK_SIZE`.
pub open spec fn grid_origin(i: int, j: int) -> (i32, i32) {
    ((i * BLOCK_SIZE) as i32, (j * BLOCK_SIZE) as i32)
}

/// The abstract state of a world: its blocks, in the order they were added.
pub struct WorldView {
    pub blocks: Seq<ParticleBlockView>,
}

impl WorldView {
    /// Well-formedness: every block well-formed, no two at one position.
    pub open spec fn wf(self) -> bool {
        &&& forall|i: int| 0 <= i < self.blocks.len() ==> (#[trigger] self.blocks[i]).wf()
        &&& forall|i: int, j: int|
            0 <= i < self.blocks.len() && 0 <= j < self.blocks.len() && i != j
                ==> #[trigger] self.blocks[i].pos != #[trigger] self.blocks[j].pos
    }

    /// Every block lies on the grid of `BLOCK_SIZE`, away from the ends of
    /// `i32` (`pos_bounded`), with its keys near its origin: the condition
    /// under which every cell of every block can be simulated.
    pub open spec fn simulable(self) -> bool {
        forall|i: int|
            0 <= i < self.blocks.len() ==> {
                &&& block_origin((#[trigger] self.blocks[i]).pos) == self.blocks[i].pos
                &&& pos_bounded(self.blocks[i].pos)
                &&& keys_near(self.blocks[i].entries)
            }
    }

    /// Every cell from `(0, 0)` to `(PARTICLES_IN_ROW - 1, PARTICLES_IN_ROW - 1)`
    /// is covered by a block: there is one at each point of the grid of
    /// `BLOCK_SIZE` in that square.
    pub open spec fn covers_grid(self) -> bool {
        forall|i: int, j: int|
            0 <= i < BLOCKS_IN_WORLD_ROW && 0 <= j < BLOCKS_IN_WORLD_ROW ==> #[trigger] self.has_block(
                grid_origin(i, j),
            )
    }

    /// Whether the world has a block at `pos`.
    pub open spec fn has_block(self, pos: (i32, i32)) -> bool {
        has_block_at(self.blocks, pos)
    }

    /// The block at `pos`, where the world has one.
    pub open spec fn block(self, pos: (i32, i32)) -> ParticleBlockView {
        self.blocks[block_index(self.blocks, pos)]
    }

    /// The particle at a global position: what the block it falls into holds
    /// there, or a boundary where no block covers it.
    pub open spec fn particle(self, global_pos: (i32, i32)) -> Particle {
        if self.has_block(block_origin(global_pos)) {
            self.block(block_origin(global_pos)).particle(pos_in_block(global_pos))
        } else {
            Particle::Boundary
        }
    }

    /// A global position can be written: no block covers it, or its pixel
    /// lies inside the texture of the block that does.
    pub open spec fn writable(self, global_pos: (i32, i32)) -> bool {
        self.has_block(block_origin(global_pos)) ==> pixel_in_texture(pos_in_block(global_pos))
    }

    /// The world after `set_particle(global_pos, particle, mark_dirty)`.
    pub open spec fn after_set(self, global_pos: (i32, i32), particle: Particle, mark_dirty: bool) -> WorldView {
        if self.has_block(block_origin(global_pos)) {
            let i = block_index(self.blocks, block_origin(global_pos));
            WorldView {
                blocks: self.blocks.update(
                    i,
                    self.blocks[i].after_set(pos_in_block(global_pos), particle, mark_dirty),
                ),
            }
        } else {
            self
        }
    }

    /// The world after `set_block(block)`: the block at the same position is
    /// replaced in place, or the block is appended.
    pub open spec fn with_block(self, block: ParticleBlockView) -> WorldView {
        if self.has_block(block.pos) {
            WorldView { blocks: self.blocks.update(block_index(self.blocks, block.pos), block) }
        } else {
            WorldView { blocks: self.blocks.push(block) }
        }
    }

    /// The world with every block's `updated` flag cleared.
    pub open spec fn flags_cleared(self) -> WorldView {
        WorldView {
            blocks: Seq::new(
                self.blocks.len(),
                |i: int| ParticleBlockView { updated: false, ..self.blocks[i] },
            ),
        }
    }
}

/// The world: square blocks of cells, each stored under its position.
pub struct World {
    blocks: Vec<ParticleBlock>,
}

impl View for World {
    type V = WorldView;

    closed spec fn view(&self) -> WorldView {
        WorldView { blocks: self.blocks@.map_values(|b: ParticleBlock| b@) }
    }
}

/// Rust's `%` by `BLOCK_SIZE`.
fn rem_block(a: i32) -> (r: i32)
    ensures
        r == trunc_rem(a as int, BLOCK_SIZE as int),
        -BLOCK_SIZE < r < BLOCK_SIZE,
{
    a % BLOCK_SIZE
}

/// Whether the pixel of a position inside a block lies in the texture.
fn pixel_fits(pos_in_block: (i32, i32)) -> (r: bool)
    requires
        -BLOCK_SIZE < pos_in_block.0 < BLOCK_SIZE,
        -BLOCK_SIZE < pos_in_block.1 < BLOCK_SIZE,
    ensures
        r == pixel_in_texture(pos_in_block),
{
    let idx = pos_in_block.0 * 3 + pos_in_block.1 * BLOCK_SIZE * 3;
    0 <= idx && idx + 2 < 192
}

impl World {
    /// Finds the block at `pos`.
    fn find_block(&self, pos: (i32, i32)) -> (r: Option<usize>)
        requires
            self@.wf(),
        ensures
            r is None <==> !self@.has_block(pos),
            r matches Some(i) ==> i < self@.blocks.len() && i == block_index(self@.blocks, pos)
                && self@.blocks[i as int].pos == pos,
    {
        let ghost v = self@.blocks;
        let mut i: usize = 0;
        while i < self.blocks.len()
            invariant
                i <= self.blocks@.len(),
                v == self@.blocks,
                v.len() == self.blocks@.len(),
                self@.wf(),
                forall|j: int| 0 <= j < i ==> #[trigger] v[j].pos != pos,
            decreases self.blocks@.len() - i,
        {
            let p = self.blocks[i].get_pos();
            assert(v[i as int] == self.blocks@[i as int]@);
            if p.0 == pos.0 && p.1 == pos.1 {
                assert(has_block_at(v, pos));
                let ghost k = block_index(v, pos);
                assert(v[k].pos == pos);
                return Some(i);
            }
            i = i + 1;
        }
        None
    }

    /// The world of `BLOCKS_IN_WORLD_ROW` by `BLOCKS_IN_WORLD_ROW` empty blocks,
    /// covering the cells from `(0, 0)` to `(PARTICLES_IN_ROW - 1, PARTICLES_IN_ROW - 1)`.
    pub fn new() -> (r: World)
        ensures
            r@.blocks == initial_blocks(),
            r@.wf(),
            r@.simulable(),
            r@.covers_grid(),
    {
        let mut blocks: Vec<ParticleBlock> = Vec::new();
        let mut i: i32 = 0;
        while i < BLOCKS_IN_WORLD_ROW
            invariant
                0 <= i <= BLOCKS_IN_WORLD_ROW,
                blocks@.len() == i * 8,
                forall|k: int| 0 <= k < blocks@.len() ==> #[trigger] blocks@[k]@ == initial_blocks()[k],
            decreases BLOCKS_IN_WORLD_ROW - i,
        {
            let mut j: i32 = 0;
            while j < BLOCKS_IN_WORLD_ROW
                invariant
                    0 <= i < BLOCKS_IN_WORLD_ROW,
                    0 <= j <= BLOCKS_IN_WORLD_ROW,
                    blocks@.len() == i * 8 + j,
                    forall|k: int| 0 <= k < blocks@.len() ==> #[trigger] blocks@[k]@ == initial_blocks()[k],
                decreases BLOCKS_IN_WORLD_ROW - j,
            {
                let (x, y) = (i * BLOCK_SIZE, j * BLOCK_SIZE);
                let b = ParticleBlock::new((x, y));
                let ghost k = i * 8 + j;
                assert(k / 8 == i && k % 8 == j) by (nonlinear_arith)
                    requires
                        k == i * 8 + j,
                        0 <= j < 8,
                        0 <= i,
                ;
                blocks.push(b);
                j = j + 1;
            }
            i = i + 1;
        }
        let r = World { blocks };
        assert(r@.blocks =~= initial_blocks());
        assert forall|a: int, b: int|
            0 <= a < r@.blocks.len() && 0 <= b < r@.blocks.len() && a != b implies #[trigger] r@.blocks[a].pos
            != #[trigger] r@.blocks[b].pos by {
            lemma_initial_positions(a, b);
        }
        assert forall|a: int| 0 <= a < r@.blocks.len() implies (#[trigger] r@.blocks[a]).wf() by {
            assert(r@.blocks[a] == initial_blocks()[a]);
        }
        assert forall|a: int| 0 <= a < r@.blocks.len() implies {
            &&& block_origin((#[trigger] r@.blocks[a]).pos) == r@.blocks[a].pos
            &&& pos_bounded(r@.blocks[a].pos)
            &&& keys_near(r@.blocks[a].entries)
        } by {
            let i = a / 8;
            let j = a % 8;
            assert(0 <= i < 8 && 0 <= j < 8);
            vstd::arithmetic::div_mod::lemma_mod_multiples_basic(i, 8);
            vstd::arithmetic::div_mod::lemma_mod_multiples_basic(j, 8);
            assert(r@.blocks[a].pos == ((i * 8) as i32, (j * 8) as i32));
        }
        assert forall|i: int, j: int|
            0 <= i < BLOCKS_IN_WORLD_ROW && 0 <= j < BLOCKS_IN_WORLD_ROW implies #[trigger] r@.has_block(
            grid_origin(i, j),
        ) by {
            let k = i * 8 + j;
            assert(k / 8 == i && k % 8 == j) by (nonlinear_arith)
                requires
                    k == i * 8 + j,
                    0 <= j < 8,
                    0 <= i,
            ;
            assert(r@.blocks[k].pos == grid_origin(i, j));
        }
        r
    }

    /// Stores a block under its position, replacing the block that was there.
    pub fn set_block(&mut self, block: ParticleBlock)
        requires
            old(self)@.wf(),
            block@.wf(),
        ensures
            final(self)@ == old(self)@.with_block(block@),
            final(self)@.wf(),
            old(self)@.simulable() && block_origin(block@.pos) == block@.pos && pos_bounded(block@.pos)
                && keys_near(block@.entries) ==> final(self)@.simulable(),
            old(self)@.covers_grid() ==> final(self)@.covers_grid(),
    {
        let ghost b = block@;
        let ghost old_v = self@;
        match self.find_block(block.get_pos()) {
            Some(i) => {
                self.blocks[i] = block;
            },
            None => {
                self.blocks.push(block);
            },
        }
        proof {
            assert(self@.blocks =~= old_v.with_block(b).blocks);
            lemma_with_block_wf(old_v, b);
            lemma_with_block_simulable(old_v, b);
            lemma_with_block_covers(old_v, b);
        }
    }

    /// The block that a global position falls into.
    pub fn get_block(&self, global_pos: (i32, i32)) -> (r: Option<&ParticleBlock>)
        requires
            self@.wf(),
        ensures
            r is None <==> !self@.has_block(block_origin(global_pos)),
            r matches Some(b) ==> b@ == self@.block(block_origin(global_pos)),
    {
        let floored = (global_pos.0 - rem_block(global_pos.0), global_pos.1 - rem_block(global_pos.1));
        match self.find_block(floored) {
            Some(i) => Some(&self.blocks[i]),
            None => None,
        }
    }

    /// The block that a global position falls into, to be changed in place.
    pub fn get_block_mut(&mut self, global_pos: (i32, i32)) -> (r: Option<&mut ParticleBlock>)
        requires
            old(self)@.wf(),
        ensures
            r is None <==> !old(self)@.has_block(block_origin(global_pos)),
            r is None ==> final(self)@ == old(self)@,
            r is Some ==> (*r.unwrap())@ == old(self)@.block(block_origin(global_pos)) && final(self)@.blocks
                == old(self)@.blocks.update(
                block_index(old(self)@.blocks, block_origin(global_pos)),
                (*final(r.unwrap()))@,
            ),
    {
        let floored = (global_pos.0 - rem_block(global_pos.0), global_pos.1 - rem_block(global_pos.1));
        match self.find_block(floored) {
            Some(i) => Some(&mut self.blocks[i]),
            None => None,
        }
    }

    /// The blocks of the world, in the order they were added.
    pub fn all_blocks(&self) -> (r: &Vec<ParticleBlock>)
        ensures
            r@.len() == self@.blocks.len(),
            forall|i: int| 0 <= i < r@.len() ==> #[trigger] r@[i]@ == self@.blocks[i],
    {
        &self.blocks
    }

    /// The particle at a global position: a boundary outside every block.
    pub fn get_particle(&self, global_pos: (i32, i32)) -> (r: &Particle)
        requires
            self@.wf(),
        ensures
            *r == self@.particle(global_pos),
    {
        let block = self.get_block(global_pos);
        match block {
            Some(block) => {
                let pos_in_block = (rem_block(global_pos.0), rem_block(global_pos.1));
                block.get_particle(pos_in_block)
            },
            None => &Particle::Boundary,
        }
    }

    /// Writes the cell at a global position, in the block that it falls into;
    /// a position that no block covers is left alone.
    pub fn set_particle(&mut self, global_pos: (i32, i32), particle: Particle, mark_dirty: bool)
        requires
            old(self)@.wf(),
            old(self)@.writable(global_pos),
        ensures
            final(self)@ == old(self)@.after_set(global_pos, particle, mark_dirty),
            final(self)@.wf(),
            old(self)@.simulable() ==> final(self)@.simulable(),
            old(self)@.covers_grid() ==> final(self)@.covers_grid(),
    {
        let ghost old_v = self@;
        let floored = (global_pos.0 - rem_block(global_pos.0), global_pos.1 - rem_block(global_pos.1));
        match self.find_block(floored) {
            Some(i) => {
                let pos_in_block = (rem_block(global_pos.0), rem_block(global_pos.1));
                assert(self.blocks@[i as int]@ == old_v.blocks[i as int]);
                self.blocks[i].set_particle(pos_in_block, particle, mark_dirty);
                proof {
                    assert(self@.blocks =~= old_v.after_set(global_pos, particle, mark_dirty).blocks);
                    assert forall|a: int, b: int|
                        0 <= a < self@.blocks.len() && 0 <= b < self@.blocks.len() && a != b implies
                        #[trigger] self@.blocks[a].pos != #[trigger] self@.blocks[b].pos by {
                        assert(self@.blocks[a].pos == old_v.blocks[a].pos);
                        assert(self@.blocks[b].pos == old_v.blocks[b].pos);
                    }
                    assert forall|a: int| 0 <= a < self@.blocks.len() implies (#[trigger] self@.blocks[a]).wf() by {
                        if a != i {
                            assert(self@.blocks[a] == old_v.blocks[a]);
                        }
                    }
                    assert forall|a: int| 0 <= a < old_v.blocks.len() implies #[trigger] self@.blocks[a].pos
                        == old_v.blocks[a].pos by {}
                    lemma_same_positions_cover(old_v, self@);
                    if old_v.simulable() {
                        lemma_store_keys_near(old_v.blocks[i as int].entries, pos_in_block, particle);
                        assert forall|a: int| 0 <= a < self@.blocks.len() implies {
                            &&& block_origin((#[trigger] self@.blocks[a]).pos) == self@.blocks[a].pos
                            &&& pos_bounded(self@.blocks[a].pos)
                            &&& keys_near(self@.blocks[a].entries)
                        } by {
                            if a != i {
                                assert(self@.blocks[a] == old_v.blocks[a]);
                            } else {
                                assert(old_v.blocks[a].pos == self@.blocks[a].pos);
                            }
                        }
                    }
                }
            },
            None => {},
        }
    }

    /// Whether the cell at a global position holds air.
    pub fn is_empty(&self, global_pos: (i32, i32)) -> (r: bool)
        requires
            self@.wf(),
        ensures
            r == (self@.particle(global_pos) == Particle::Air),
    {
        *self.get_particle(global_pos) == Particle::Air
    }

    /// Whether the cell at a global position can be written without its pixel
    /// falling outside the texture of its block.
    pub fn is_writable(&self, global_pos: (i32, i32)) -> (r: bool)
        requires
            self@.wf(),
        ensures
            r == self@.writable(global_pos),
    {
        match self.get_block(global_pos) {
            Some(_) => pixel_fits((rem_block(global_pos.0), rem_block(global_pos.1))),
            None => true,
        }
    }

    /// Clears the `updated` flag of every block.
    pub fn clear_update_flags(&mut self)
        requires
            old(self)@.wf(),
        ensures
            final(self)@ == old(self)@.flags_cleared(),
            final(self)@.wf(),
            old(self)@.simulable() ==> final(self)@.simulable(),
            old(self)@.covers_grid() ==> final(self)@.covers_grid(),
    {
        let ghost old_v = self@;
        let mut i: usize = 0;
        while i < self.blocks.len()
            invariant
                i <= self.blocks@.len(),
                self.blocks@.len() == old_v.blocks.len(),
                old_v.wf(),
                forall|k: int| 0 <= k < i ==> #[trigger] self.blocks@[k]@ == (ParticleBlockView { updated: false, ..old_v.blocks[k] }),
                forall|k: int| i <= k < self.blocks@.len() ==> #[trigger] self.blocks@[k]@ == old_v.blocks[k],
            decreases self.blocks@.len() - i,
        {
            let ghost before = self.blocks@;
            self.blocks[i].set_updated(false);
            assert(forall|k: int| 0 <= k < before.len() && k != i ==> self.blocks@[k] == before[k]);
            i = i + 1;
        }
        proof {
            assert(self@.blocks =~= old_v.flags_cleared().blocks);
            assert forall|a: int| 0 <= a < old_v.blocks.len() implies #[trigger] self@.blocks[a].pos
                == old_v.blocks[a].pos by {}
            lemma_same_positions_cover(old_v, self@);
            assert forall|a: int, b: int|
                0 <= a < self@.blocks.len() && 0 <= b < self@.blocks.len() && a != b implies
                #[trigger] self@.blocks[a].pos != #[trigger] self@.blocks[b].pos by {
                assert(self@.blocks[a].pos == old_v.blocks[a].pos);
                assert(self@.blocks[b].pos == old_v.blocks[b].pos);
            }
            assert forall|a: int| 0 <= a < self@.blocks.len() implies (#[trigger] self@.blocks[a]).wf() by {
                assert(old_v.blocks[a].wf());
            }
            if old_v.simulable() {
                assert forall|a: int| 0 <= a < self@.blocks.len() implies {
                    &&& block_origin((#[trigger] self@.blocks[a]).pos) == self@.blocks[a].pos
                    &&& pos_bounded(self@.blocks[a].pos)
                    &&& keys_near(self@.blocks[a].entries)
                } by {
                    assert(old_v.blocks[a].pos == self@.blocks[a].pos);
                    assert(old_v.blocks[a].entries == self@.blocks[a].entries);
                }
            }
        }
    }

    /// The positions of the dirty blocks, in the order of the blocks.
    pub fn get_dirty_pos(&self) -> (r: Vec<(i32, i32)>)
        ensures
            r@ == dirty_positions(self@.blocks),
    {
        let ghost v = self@.blocks;
        let mut r: Vec<(i32, i32)> = Vec::new();
        let mut i: usize = 0;
        while i < self.blocks.len()
            invariant
                i <= self.blocks@.len(),
                v == self@.blocks,
                r@ == dirty_positions(v.take(i as int)),
            decreases self.blocks@.len() - i,
        {
            assert(v.take(i as int + 1).drop_last() =~= v.take(i as int));
            assert(v[i as int] == self.blocks@[i as int]@);
            if self.blocks[i].is_dirty() {
                r.push(self.blocks[i].get_pos());
            }
            i = i + 1;
        }
        assert(v.take(i as int) =~= v);
        r
    }
}

/// The abstract state of a block being written in a frame.
pub struct WriteStateView {
    pub block: ParticleBlockView,
    /// Writes that fell outside the block, in the order they came.
    pub moves: Seq<((i32, i32), Particle)>,
}

/// Whether a global position lies inside the block at `block_pos`.
pub open spec fn inside_block(global_pos: (i32, i32), block_pos: (i32, i32)) -> bool {
    &&& block_pos.0 <= global_pos.0 < block_pos.0 + BLOCK_SIZE
    &&& block_pos.1 <= global_pos.1 < block_pos.1 + BLOCK_SIZE
}

impl WriteStateView {
    /// Well-formedness: the block is well-formed and its far corner is an `i32` pair.
    pub open spec fn wf(self) -> bool {
        &&& self.block.wf()
        &&& self.block.pos.0 + BLOCK_SIZE <= i32::MAX
        &&& self.block.pos.1 + BLOCK_SIZE <= i32::MAX
    }

    /// The state after `set_cell(particle, global_pos, mark_dirty)`: a write
    /// inside the block goes into it, any other is queued as a move.
    pub open spec fn after_set_cell(self, particle: Particle, global_pos: (i32, i32), mark_dirty: bool) -> WriteStateView {
        if inside_block(global_pos, self.block.pos) {
            WriteStateView {
                block: self.block.after_set(
                    ((global_pos.0 - self.block.pos.0) as i32, (global_pos.1 - self.block.pos.1) as i32),
                    particle,
                    mark_dirty,
                ),
                moves: self.moves,
            }
        } else {
            WriteStateView { block: self.block, moves: self.moves.push((global_pos, particle)) }
        }
    }
}

/// The block that a frame writes, with the writes that fell outside it.
pub struct WriteState {
    active_block: ParticleBlock,
    cross_block_moves: Vec<((i32, i32), Particle)>,
}

impl View for WriteState {
    type V = WriteStateView;

    closed spec fn view(&self) -> WriteStateView {
        WriteStateView { block: self.active_block@, moves: self.cross_block_moves@ }
    }
}

impl WriteState {
    /// Starts writing a block: it is marked updated, and no move is queued.
    pub fn new(particle_block: ParticleBlock) -> (r: WriteState)
        ensures
            r@.block == (ParticleBlockView { updated: true, ..particle_block@ }),
            r@.moves == Seq::<((i32, i32), Particle)>::empty(),
    {
        let mut particle_block = particle_block;
        particle_block.set_updated(true);
        WriteState { active_block: particle_block, cross_block_moves: Vec::new() }
    }

    /// The position of the block being written.
    pub fn get_block_pos(&self) -> (r: (i32, i32))
        ensures
            r == self@.block.pos,
    {
        self.active_block.get_pos()
    }

    /// The written block and the queued moves.
    pub fn finish(self) -> (r: (ParticleBlock, Vec<((i32, i32), Particle)>))
        ensures
            r.0@ == self@.block,
            r.1@ == self@.moves,
    {
        (self.active_block, self.cross_block_moves)
    }

    /// Writes a cell given by its global position: into the block where it
    /// lies inside, else onto the queue of moves.
    pub fn set_cell(&mut self, particle: Particle, global_pos: (i32, i32), mark_dirty: bool)
        requires
            old(self)@.wf(),
        ensures
            final(self)@ == old(self)@.after_set_cell(particle, global_pos, mark_dirty),
            final(self)@.wf(),
            keys_near(old(self)@.block.entries) ==> keys_near(final(self)@.block.entries),
    {
        let block_pos = self.active_block.get_pos();
        let is_in_block = global_pos.0 >= block_pos.0 && global_pos.0 < block_pos.0 + BLOCK_SIZE
            && global_pos.1 >= block_pos.1 && global_pos.1 < block_pos.1 + BLOCK_SIZE;
        if is_in_block {
            let pos_in_block = (global_pos.0 - block_pos.0, global_pos.1 - block_pos.1);
            self.active_block.set_particle(pos_in_block, particle, mark_dirty);
            proof {
                if keys_near(old(self)@.block.entries) {
                    lemma_store_keys_near(old(self)@.block.entries, pos_in_block, particle);
                }
            }
        } else {
            self.cross_block_moves.push((global_pos, particle));
        }
    }
}

/// A coordinate is its block's origin plus its position inside the block, and
/// the origin is a multiple of `BLOCK_SIZE` that lies in `0..=56` exactly when
/// the coordinate lies strictly between `-BLOCK_SIZE` and `PARTICLES_IN_ROW`.
proof fn lemma_origin(a: i32)
    ensures
        a == (a - trunc_rem(a as int, 8)) + trunc_rem(a as int, 8),
        (a - trunc_rem(a as int, 8)) % 8 == 0,
        (-8 < a < 64) <==> (0 <= a - trunc_rem(a as int, 8) <= 56),
{
    let r = trunc_rem(a as int, 8);
    if a >= 0 {
        assert(a - a % 8 == (a / 8) * 8) by (nonlinear_arith)
            requires
                a >= 0,
        ;
        vstd::arithmetic::div_mod::lemma_mod_multiples_basic(a / 8, 8);
        assert((a < 64) <==> (a / 8 <= 7)) by (nonlinear_arith)
            requires
                a >= 0,
        ;
    } else {
        let b = -a;
        assert(b - b % 8 == (b / 8) * 8) by (nonlinear_arith)
            requires
                b > 0,
        ;
        vstd::arithmetic::div_mod::lemma_mod_multiples_basic(-(b / 8), 8);
        assert(-((b / 8) * 8) == (-(b / 8)) * 8) by (nonlinear_arith);
        assert((b < 8) <==> (b / 8 == 0)) by (nonlinear_arith)
            requires
                b > 0,
        ;
    }
}

/// The new world holds air at every cell that one of its blocks covers: those
/// strictly between `-BLOCK_SIZE` and `PARTICLES_IN_ROW` along both axes;
/// every other cell reads as a boundary.
pub proof fn lemma_new_world_particles(global_pos: (i32, i32))
    ensures
        (WorldView { blocks: initial_blocks() }).particle(global_pos) == (if -8 < global_pos.0 < 64 && -8
            < global_pos.1 < 64 {
            Particle::Air
        } else {
            Particle::Boundary
        }),
{
    let w = WorldView { blocks: initial_blocks() };
    let o = block_origin(global_pos);
    lemma_origin(global_pos.0);
    lemma_origin(global_pos.1);
    if -8 < global_pos.0 < 64 && -8 < global_pos.1 < 64 {
        let i = o.0 / 8;
        let j = o.1 / 8;
        assert(o.0 == i * 8 && o.1 == j * 8);
        assert(0 <= i < 8 && 0 <= j < 8);
        let k = i * 8 + j;
        assert(k / 8 == i && k % 8 == j) by (nonlinear_arith)
            requires
                k == i * 8 + j,
                0 <= j < 8,
                0 <= i,
        ;
        assert(0 <= k < 64);
        assert(initial_blocks()[k].pos == o);
        assert(w.has_block(o));
        let m = block_index(w.blocks, o);
        assert(w.blocks[m] == ParticleBlockView::empty_at(w.blocks[m].pos));
    } else {
        if w.has_block(o) {
            let m = block_index(w.blocks, o);
            let i = m / 8;
            let j = m % 8;
            assert(0 <= i < 8 && 0 <= j < 8);
            assert(w.blocks[m].pos == ((i * 8) as i32, (j * 8) as i32));
            assert(false);
        }
    }
}

/// In a well-formed world, a write reads back at its position and leaves
/// every other position as it was; a write that no block covers changes nothing.
pub proof fn lemma_world_read_after_write(
    w: WorldView,
    global_pos: (i32, i32),
    particle: Particle,
    mark_dirty: bool,
    other: (i32, i32),
)
    requires
        w.wf(),
        w.writable(global_pos),
    ensures
        w.has_block(block_origin(global_pos)) ==> w.after_set(global_pos, particle, mark_dirty).particle(
            global_pos,
        ) == particle,
        !w.has_block(block_origin(global_pos)) ==> w.after_set(global_pos, particle, mark_dirty) == w,
        other != global_pos ==> w.after_set(global_pos, particle, mark_dirty).particle(other) == w.particle(
            other,
        ),
{
    let og = block_origin(global_pos);
    let oh = block_origin(other);
    lemma_origin(global_pos.0);
    lemma_origin(global_pos.1);
    lemma_origin(other.0);
    lemma_origin(other.1);
    if w.has_block(og) {
        let i = block_index(w.blocks, og);
        let n = w.after_set(global_pos, particle, mark_dirty);
        assert(n.blocks[i].pos == og);
        assert(n.has_block(og));
        let i2 = block_index(n.blocks, og);
        if i2 != i {
            assert(n.blocks[i2] == w.blocks[i2]);
        }
        assert(w.blocks[i].wf());
        lemma_block_read_after_write(
            w.blocks[i],
            pos_in_block(global_pos),
            particle,
            mark_dirty,
            pos_in_block(other),
        );
        if other != global_pos {
            assert(forall|a: int| 0 <= a < n.blocks.len() ==> #[trigger] n.blocks[a].pos == w.blocks[a].pos);
            if w.has_block(oh) {
                let j = block_index(w.blocks, oh);
                assert(n.blocks[j].pos == oh);
                assert(n.has_block(oh));
                let j2 = block_index(n.blocks, oh);
                assert(n.blocks[j2].pos == w.blocks[j2].pos);
                assert(j2 == j);
                if j != i {
                    assert(n.blocks[j] == w.blocks[j]);
                } else {
                    assert(oh == og);
                    assert(pos_in_block(other) != pos_in_block(global_pos));
                }
            } else {
                if n.has_block(oh) {
                    let j2 = block_index(n.blocks, oh);
                    assert(w.blocks[j2].pos == oh);
                }
            }
        }
    }
}

/// A world whose blocks stand, one for one, at the positions of another's
/// covers the grid where the other does.
proof fn lemma_same_positions_cover(w: WorldView, n: WorldView)
    requires
        n.blocks.len() == w.blocks.len(),
        forall|i: int| 0 <= i < w.blocks.len() ==> #[trigger] n.blocks[i].pos == w.blocks[i].pos,
    ensures
        w.covers_grid() ==> n.covers_grid(),
{
    if w.covers_grid() {
        assert forall|i: int, j: int|
            0 <= i < BLOCKS_IN_WORLD_ROW && 0 <= j < BLOCKS_IN_WORLD_ROW implies #[trigger] n.has_block(
            grid_origin(i, j),
        ) by {
            assert(w.has_block(grid_origin(i, j)));
            let k = block_index(w.blocks, grid_origin(i, j));
            assert(n.blocks[k].pos == grid_origin(i, j));
        }
    }
}

/// Storing a block keeps every block position there was.
proof fn lemma_with_block_covers(w: WorldView, b: ParticleBlockView)
    ensures
        w.covers_grid() ==> w.with_block(b).covers_grid(),
{
    let n = w.with_block(b);
    if w.covers_grid() {
        assert forall|i: int, j: int|
            0 <= i < BLOCKS_IN_WORLD_ROW && 0 <= j < BLOCKS_IN_WORLD_ROW implies #[trigger] n.has_block(
            grid_origin(i, j),
        ) by {
            assert(w.has_block(grid_origin(i, j)));
            let k = block_index(w.blocks, grid_origin(i, j));
            if w.has_block(b.pos) {
                let m = block_index(w.blocks, b.pos);
                if k == m {
                    assert(n.blocks[k].pos == grid_origin(i, j));
                } else {
                    assert(n.blocks[k] == w.blocks[k]);
                }
            } else {
                assert(n.blocks[k] == w.blocks[k]);
            }
        }
    }
}

/// Each cell of the square from `(0, 0)` to `(PARTICLES_IN_ROW - 1,
/// PARTICLES_IN_ROW - 1)` falls into the block at a point of the grid, at a
/// position inside the block's square.
proof fn lemma_grid_cell(global_pos: (i32, i32))
    requires
        0 <= global_pos.0 < PARTICLES_IN_ROW,
        0 <= global_pos.1 < PARTICLES_IN_ROW,
    ensures
        block_origin(global_pos) == grid_origin(global_pos.0 / 8, global_pos.1 / 8),
        0 <= global_pos.0 / 8 < 8,
        0 <= global_pos.1 / 8 < 8,
        0 <= pos_in_block(global_pos).0 < BLOCK_SIZE,
        0 <= pos_in_block(global_pos).1 < BLOCK_SIZE,
        pixel_in_texture(pos_in_block(global_pos)),
{
    let a = global_pos.0;
    let b = global_pos.1;
    assert(a - a % 8 == (a / 8) * 8) by (nonlinear_arith)
        requires
            a >= 0,
    ;
    assert(b - b % 8 == (b / 8) * 8) by (nonlinear_arith)
        requires
            b >= 0,
    ;
}

/// In a well-formed world that covers the grid, a cell of the square from
/// `(0, 0)` to `(PARTICLES_IN_ROW - 1, PARTICLES_IN_ROW - 1)` can be written;
/// the write reads back there, leaves every other position as it was, and
/// the world still covers the grid.
pub proof fn lemma_grid_read_after_write(
    w: WorldView,
    global_pos: (i32, i32),
    particle: Particle,
    mark_dirty: bool,
    other: (i32, i32),
)
    requires
        w.wf(),
        w.covers_grid(),
        0 <= global_pos.0 < PARTICLES_IN_ROW,
        0 <= global_pos.1 < PARTICLES_IN_ROW,
    ensures
        w.writable(global_pos),
        w.after_set(global_pos, particle, mark_dirty).covers_grid(),
        w.after_set(global_pos, particle, mark_dirty).particle(global_pos) == particle,
        other != global_pos ==> w.after_set(global_pos, particle, mark_dirty).particle(other) == w.particle(
            other,
        ),
{
    lemma_grid_cell(global_pos);
    assert(w.has_block(grid_origin(global_pos.0 / 8, global_pos.1 / 8)));
    lemma_world_read_after_write(w, global_pos, particle, mark_dirty, other);
    let n = w.after_set(global_pos, particle, mark_dirty);
    assert forall|i: int| 0 <= i < w.blocks.len() implies #[trigger] n.blocks[i].pos == w.blocks[i].pos by {}
    lemma_same_positions_cover(w, n);
}

/// A global position is the origin of its block plus its position inside
/// the block; the origin is a multiple of `BLOCK_SIZE`, and the position
/// inside the block lies strictly within `BLOCK_SIZE` of zero, with the sign
/// of the global coordinate (Rust's truncating `%`).
pub proof fn lemma_block_origin_splits(global_pos: (i32, i32))
    ensures
        block_origin(global_pos).0 + pos_in_block(global_pos).0 == global_pos.0,
        block_origin(global_pos).1 + pos_in_block(global_pos).1 == global_pos.1,
        block_origin(global_pos).0 % 8 == 0,
        block_origin(global_pos).1 % 8 == 0,
        -8 < pos_in_block(global_pos).0 < 8,
        -8 < pos_in_block(global_pos).1 < 8,
        global_pos.0 >= 0 ==> pos_in_block(global_pos).0 >= 0,
        global_pos.0 < 0 ==> pos_in_block(global_pos).0 <= 0,
        global_pos.1 >= 0 ==> pos_in_block(global_pos).1 >= 0,
        global_pos.1 < 0 ==> pos_in_block(global_pos).1 <= 0,
{
    lemma_origin(global_pos.0);
    lemma_origin(global_pos.1);
}

/// Writing a cell given by its global position: inside the block being
/// written (`BLOCK_SIZE` cells from its origin along each axis) it goes into
/// the block, which then holds the particle there, marked dirty as asked,
/// every other cell as before, and no move is queued; outside, it is queued
/// as the last move and the block is left as it was.
pub proof fn lemma_set_cell_routes(ws: WriteStateView, particle: Particle, global_pos: (i32, i32), mark_dirty: bool)
    requires
        ws.wf(),
    ensures
        ({
            let bp = ws.block.pos;
            let after = ws.after_set_cell(particle, global_pos, mark_dirty);
            let local = ((global_pos.0 - bp.0) as i32, (global_pos.1 - bp.1) as i32);
            let inside = bp.0 <= global_pos.0 < bp.0 + 8 && bp.1 <= global_pos.1 < bp.1 + 8;
            &&& after.block.pos == bp
            &&& inside ==> {
                &&& after.moves == ws.moves
                &&& after.block.particle(local) == particle
                &&& after.block.dirty == (ws.block.dirty || mark_dirty)
                &&& forall|q: (i32, i32)| q != local ==> #[trigger] after.block.particle(q) == ws.block.particle(q)
            }
            &&& !inside ==> after.moves == ws.moves.push((global_pos, particle)) && after.block == ws.block
        }),
{
    let bp = ws.block.pos;
    let local = ((global_pos.0 - bp.0) as i32, (global_pos.1 - bp.1) as i32);
    if inside_block(global_pos, bp) {
        let after = ws.after_set_cell(particle, global_pos, mark_dirty);
        lemma_block_read_after_write(ws.block, local, particle, mark_dirty, local);
        assert forall|q: (i32, i32)| q != local implies #[trigger] after.block.particle(q) == ws.block.particle(q) by {
            lemma_block_read_after_write(ws.block, local, particle, mark_dirty, q);
        }
    }
}

/// Clearing the flags clears every block's `updated` flag and changes
/// nothing else: the same blocks, in the same order, with the same
/// positions, cells, textures and dirty flags.
pub proof fn lemma_flags_cleared(w: WorldView)
    ensures
        w.flags_cleared().blocks.len() == w.blocks.len(),
        forall|i: int|
            0 <= i < w.blocks.len() ==> {
                let b = #[trigger] w.flags_cleared().blocks[i];
                &&& !b.updated
                &&& b.pos == w.blocks[i].pos
                &&& b.dirty == w.blocks[i].dirty
                &&& b.entries == w.blocks[i].entries
                &&& b.texture == w.blocks[i].texture
            },
{
}

/// The dirty list holds exactly the positions of the dirty blocks, one each,
/// in the order of the blocks.
pub proof fn lemma_dirty_positions_are_dirty_blocks(blocks: Seq<ParticleBlockView>)
    ensures
        dirty_positions(blocks).len() == blocks.filter(|b: ParticleBlockView| b.dirty).len(),
        forall|k: int|
            0 <= k < dirty_positions(blocks).len() ==> blocks.filter(|b: ParticleBlockView| b.dirty)[k].dirty
                && #[trigger] dirty_positions(blocks)[k] == blocks.filter(|b: ParticleBlockView| b.dirty)[k].pos,
    decreases blocks.len(),
{
    reveal(Seq::filter);
    if blocks.len() > 0 {
        lemma_dirty_positions_are_dirty_blocks(blocks.drop_last());
        let f0 = blocks.drop_last().filter(|b: ParticleBlockView| b.dirty);
        let f = blocks.filter(|b: ParticleBlockView| b.dirty);
        let d0 = dirty_positions(blocks.drop_last());
        let d = dirty_positions(blocks);
        if blocks.last().dirty {
            assert(f == f0.push(blocks.last()));
            assert forall|k: int| 0 <= k < d.len() implies f[k].dirty && #[trigger] d[k] == f[k].pos by {
                if k < d0.len() {
                    assert(f[k] == f0[k]);
                    assert(d[k] == d0[k]);
                }
            }
        } else {
            assert(f == f0);
            assert(d == d0);
        }
    }
}

/// A write at a global position that can be written keeps the world
/// well-formed and every block position; the block the position falls into
/// is that block with the cell written, and every other block is as it was.
pub proof fn lemma_after_set_blocks(
    w: WorldView,
    global_pos: (i32, i32),
    particle: Particle,
    mark_dirty: bool,
    pos: (i32, i32),
)
    requires
        w.wf(),
        w.writable(global_pos),
    ensures
        w.after_set(global_pos, particle, mark_dirty).wf(),
        w.after_set(global_pos, particle, mark_dirty).has_block(pos) == w.has_block(pos),
        w.has_block(pos) && pos == block_origin(global_pos) ==> w.after_set(global_pos, particle, mark_dirty).block(
            pos,
        ) == w.block(pos).after_set(pos_in_block(global_pos), particle, mark_dirty),
        w.has_block(pos) && pos != block_origin(global_pos) ==> w.after_set(global_pos, particle, mark_dirty).block(
            pos,
        ) == w.block(pos),
{
    let n = w.after_set(global_pos, particle, mark_dirty);
    if w.has_block(block_origin(global_pos)) {
        let i = block_index(w.blocks, block_origin(global_pos));
        assert(w.blocks[i].wf());
        lemma_store_wf(w.blocks[i], pos_in_block(global_pos), particle, mark_dirty);
        assert forall|a: int| 0 <= a < n.blocks.len() implies (#[trigger] n.blocks[a]).wf() by {
            if a != i {
                assert(n.blocks[a] == w.blocks[a]);
            }
        }
        assert forall|a: int, b: int|
            0 <= a < n.blocks.len() && 0 <= b < n.blocks.len() && a != b implies #[trigger] n.blocks[a].pos
            != #[trigger] n.blocks[b].pos by {
            assert(n.blocks[a].pos == w.blocks[a].pos);
            assert(n.blocks[b].pos == w.blocks[b].pos);
        }
        if w.has_block(pos) {
            let j = block_index(w.blocks, pos);
            assert(n.blocks[j].pos == pos);
            assert(n.has_block(pos));
            let j2 = block_index(n.blocks, pos);
            assert(n.blocks[j2].pos == w.blocks[j2].pos);
            assert(j2 == j);
        } else if n.has_block(pos) {
            let j2 = block_index(n.blocks, pos);
            assert(w.blocks[j2].pos == pos);
        }
    }
}

/// Storing an aligned, bounded block with its keys near its origin keeps a
/// world simulable.
proof fn lemma_with_block_simulable(w: WorldView, b: ParticleBlockView)
    requires
        w.wf(),
        b.wf(),
    ensures
        w.simulable() && block_origin(b.pos) == b.pos && pos_bounded(b.pos) && keys_near(b.entries)
            ==> w.with_block(b).simulable(),
{
    let n = w.with_block(b).blocks;
    if w.simulable() && block_origin(b.pos) == b.pos && pos_bounded(b.pos) && keys_near(b.entries) {
        assert forall|a: int| 0 <= a < n.len() implies {
            &&& block_origin((#[trigger] n[a]).pos) == n[a].pos
            &&& pos_bounded(n[a].pos)
            &&& keys_near(n[a].entries)
        } by {
            if a < w.blocks.len() && n[a] != b {
                assert(n[a] == w.blocks[a]);
            }
        }
    }
}

/// Distinct indices of the initial blocks give distinct positions.
proof fn lemma_initial_positions(a: int, b: int)
    requires
        0 <= a < 64,
        0 <= b < 64,
        a != b,
    ensures
        initial_blocks()[a].pos != initial_blocks()[b].pos,
{
    assert(a / 8 != b / 8 || a % 8 != b % 8) by (nonlinear_arith)
        requires
            0 <= a < 64,
            0 <= b < 64,
            a != b,
    ;
}

/// Storing a well-formed block keeps a world well-formed.
proof fn lemma_with_block_wf(w: WorldView, b: ParticleBlockView)
    requires
        w.wf(),
        b.wf(),
    ensures
        w.with_block(b).wf(),
{
    let n = w.with_block(b).blocks;
    if w.has_block(b.pos) {
        let k = block_index(w.blocks, b.pos);
        assert forall|i: int, j: int|
            0 <= i < n.len() && 0 <= j < n.len() && i != j implies #[trigger] n[i].pos
            != #[trigger] n[j].pos by {
            if i != k {
                assert(n[i] == w.blocks[i]);
            }
            if j != k {
                assert(n[j] == w.blocks[j]);
            }
        }
        assert forall|i: int| 0 <= i < n.len() implies (#[trigger] n[i]).wf() by {
            if i != k {
                assert(n[i] == w.blocks[i]);
            }
        }
    } else {
        assert forall|i: int, j: int|
            0 <= i < n.len() && 0 <= j < n.len() && i != j implies #[trigger] n[i].pos
            != #[trigger] n[j].pos by {
            if i < w.blocks.len() {
                assert(n[i] == w.blocks[i]);
            }
            if j < w.blocks.len() {
                assert(n[j] == w.blocks[j]);
            }
        }
        assert forall|i: int| 0 <= i < n.len() implies (#[trigger] n[i]).wf() by {
            if i < w.blocks.len() {
                assert(n[i] == w.blocks[i]);
            }
        }
    }
}

} // verus!
