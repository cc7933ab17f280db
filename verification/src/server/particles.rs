use vstd::prelude::*;

use crate::particle::Particle;

verus! {

/// Width and height of a block, in cells.
pub const BLOCK_SIZE: i32 = 8;

/// Number of blocks along each side of the world.
pub const BLOCKS_IN_WORLD_ROW: i32 = 8;

/// Number of cells along each side of the world.
pub const PARTICLES_IN_ROW: i32 = BLOCK_SIZE * BLOCKS_IN_WORLD_ROW;

/// Bytes in a block's texture: three colour channels per cell.
pub const TEXTURE_LEN: usize = 192;

/// The colour in which a particle is drawn.
pub open spec fn color_of(particle: Particle) -> (u8, u8, u8) {
    match particle {
        Particle::Sand => (195u8, 195u8, 0u8),
        _ => (0u8, 0u8, 0u8),
    }
}

/// Index of the first byte of a cell's pixel in a block texture, rows of
/// `BLOCK_SIZE` pixels one after another.
pub open spec fn texture_index(pos_in_block: (i32, i32)) -> int {
    pos_in_block.0 * 3 + pos_in_block.1 * BLOCK_SIZE * 3
}

/// The pixel of a cell can be computed in `i32` and lies inside the texture.
pub open spec fn pixel_in_texture(pos_in_block: (i32, i32)) -> bool {
    &&& i32::MIN <= pos_in_block.0 * 3 <= i32::MAX
    &&& i32::MIN <= pos_in_block.1 * BLOCK_SIZE * 3 <= i32::MAX
    &&& 0 <= texture_index(pos_in_block)
    &&& texture_index(pos_in_block) + 2 < TEXTURE_LEN
}

/// The cell stored under `key` in an association list, if any.
pub open spec fn has_key(entries: Seq<((i32, i32), Particle)>, key: (i32, i32)) -> bool {
    exists|i: int| 0 <= i < entries.len() && #[trigger] entries[i].0 == key
}

/// Where `key` is stored in an association list that holds it.
pub open spec fn key_index(entries: Seq<((i32, i32), Particle)>, key: (i32, i32)) -> int {
    choose|i: int| 0 <= i < entries.len() && #[trigger] entries[i].0 == key
}

/// No key occurs twice in an association list.
pub open spec fn keys_distinct(entries: Seq<((i32, i32), Particle)>) -> bool {
    forall|i: int, j: int|
        0 <= i < entries.len() && 0 <= j < entries.len() && i != j ==> #[trigger] entries[i].0
            != #[trigger] entries[j].0
}

/// The particle that an association list holds at `key`: air where it holds none.
pub open spec fn particle_at(entries: Seq<((i32, i32), Particle)>, key: (i32, i32)) -> Particle {
    if has_key(entries, key) {
        entries[key_index(entries, key)].1
    } else {
        Particle::Air
    }
}

/// The association list after `particle` is stored at `key`: the entry of
/// `key` is replaced in place, or a new one is appended.
pub open spec fn store(
    entries: Seq<((i32, i32), Particle)>,
    key: (i32, i32),
    particle: Particle,
) -> Seq<((i32, i32), Particle)> {
    if has_key(entries, key) {
        entries.update(key_index(entries, key), (key, particle))
    } else {
        entries.push((key, particle))
    }
}

/// A texture after the pixel of `pos_in_block` is painted in the colour of `particle`.
pub open spec fn paint(texture: Seq<u8>, pos_in_block: (i32, i32), particle: Particle) -> Seq<u8> {
    let idx = texture_index(pos_in_block);
    let c = color_of(particle);
    texture.update(idx, c.0).update(idx + 1, c.1).update(idx + 2, c.2)
}

/// A cell's position shifted by a block's position.
pub open spec fn shifted(key: (i32, i32), by: (i32, i32)) -> (int, int) {
    (key.0 + by.0, key.1 + by.1)
}

/// Every cell of an association list, shifted by `by`, is still a pair of `i32`.
pub open spec fn shift_fits(entries: Seq<((i32, i32), Particle)>, by: (i32, i32)) -> bool {
    forall|i: int|
        0 <= i < entries.len() ==> {
            let s = shifted(#[trigger] entries[i].0, by);
            &&& i32::MIN <= s.0 <= i32::MAX
            &&& i32::MIN <= s.1 <= i32::MAX
        }
}

/// In an association list with distinct keys, each entry is the one found for its key.
pub proof fn lemma_entry_is_cell(entries: Seq<((i32, i32), Particle)>, i: int)
    requires
        keys_distinct(entries),
        0 <= i < entries.len(),
    ensures
        has_key(entries, entries[i].0),
        key_index(entries, entries[i].0) == i,
        particle_at(entries, entries[i].0) == entries[i].1,
{
    assert(has_key(entries, entries[i].0));
    let k = key_index(entries, entries[i].0);
    assert(entries[k].0 == entries[i].0);
}

/// Every key of an association list lies less than `BLOCK_SIZE` away from
/// the block's origin along each axis.
pub open spec fn keys_near(entries: Seq<((i32, i32), Particle)>) -> bool {
    forall|i: int|
        0 <= i < entries.len() ==> {
            &&& -BLOCK_SIZE < (#[trigger] entries[i]).0.0 < BLOCK_SIZE
            &&& -BLOCK_SIZE < entries[i].0.1 < BLOCK_SIZE
        }
}

/// Storing a key near the origin keeps every key near it.
pub proof fn lemma_store_keys_near(entries: Seq<((i32, i32), Particle)>, key: (i32, i32), particle: Particle)
    requires
        keys_near(entries),
        -BLOCK_SIZE < key.0 < BLOCK_SIZE,
        -BLOCK_SIZE < key.1 < BLOCK_SIZE,
    ensures
        keys_near(store(entries, key, particle)),
{
    let n = store(entries, key, particle);
    assert forall|i: int| 0 <= i < n.len() implies -BLOCK_SIZE < (#[trigger] n[i]).0.0 < BLOCK_SIZE
        && -BLOCK_SIZE < n[i].0.1 < BLOCK_SIZE by {
        if i < entries.len() && n[i] != entries[i] {
            assert(n[i].0 == key);
        } else if i < entries.len() {
            assert(n[i] == entries[i]);
        }
    }
}

/// The abstract state of a block.
pub struct ParticleBlockView {
    pub pos: (i32, i32),
    pub dirty: bool,
    pub updated: bool,
    /// The cells that were written, each once, in the order of their first write.
    pub entries: Seq<((i32, i32), Particle)>,
    pub texture: Seq<u8>,
}

/// A square of `BLOCK_SIZE` by `BLOCK_SIZE` cells at a global position,
/// holding the cells that were written into it and their texture.
pub struct ParticleBlock {
    pos: (i32, i32),
    dirty: bool,
    particles: Vec<((i32, i32), Particle)>,
    texture: Vec<u8>,
    pub updated: bool,
}

impl View for ParticleBlock {
    type V = ParticleBlockView;

    closed spec fn view(&self) -> ParticleBlockView {
        ParticleBlockView {
            pos: self.pos,
            dirty: self.dirty,
            updated: self.updated,
            entries: self.particles@,
            texture: self.texture@,
        }
    }
}

impl ParticleBlockView {
    /// Well-formedness: a texture of `TEXTURE_LEN` bytes, each cell stored
    /// once, and each stored cell with its pixel inside the texture.
    pub open spec fn wf(self) -> bool {
        &&& self.texture.len() == TEXTURE_LEN
        &&& keys_distinct(self.entries)
        &&& forall|i: int| 0 <= i < self.entries.len() ==> pixel_in_texture(#[trigger] self.entries[i].0)
    }

    /// The particle at a position inside the block.
    pub open spec fn particle(self, pos_in_block: (i32, i32)) -> Particle {
        particle_at(self.entries, pos_in_block)
    }

    /// Each cell of the block's square shows, in the texture, the colour of
    /// the particle it holds (black for air): the cell `(x, y)` in the three
    /// bytes from `3 * (x + 8 * y)`, rows of 8 pixels one after another.
    pub open spec fn texture_shows_cells(self) -> bool {
        forall|x: i32, y: i32|
            0 <= x < BLOCK_SIZE && 0 <= y < BLOCK_SIZE ==> {
                let idx = 3 * (x + 8 * y);
                let c = color_of(#[trigger] self.particle((x, y)));
                &&& self.texture[idx] == c.0
                &&& self.texture[idx + 1] == c.1
                &&& self.texture[idx + 2] == c.2
            }
    }

    /// The block as it is after `set_particle(pos_in_block, particle, mark_dirty)`.
    pub open spec fn after_set(self, pos_in_block: (i32, i32), particle: Particle, mark_dirty: bool) -> ParticleBlockView {
        ParticleBlockView {
            pos: self.pos,
            dirty: self.dirty || mark_dirty,
            updated: true,
            entries: store(self.entries, pos_in_block, particle),
            texture: paint(self.texture, pos_in_block, particle),
        }
    }

    /// A fresh, empty block at `pos`.
    pub open spec fn empty_at(pos: (i32, i32)) -> ParticleBlockView {
        ParticleBlockView {
            pos,
            dirty: false,
            updated: false,
            entries: Seq::empty(),
            texture: Seq::new(TEXTURE_LEN as nat, |i: int| 0u8),
        }
    }
}

/// Writing a cell whose pixel lies in the texture keeps a block well-formed.
pub proof fn lemma_store_wf(block: ParticleBlockView, pos_in_block: (i32, i32), particle: Particle, mark_dirty: bool)
    requires
        block.wf(),
        pixel_in_texture(pos_in_block),
    ensures
        block.after_set(pos_in_block, particle, mark_dirty).wf(),
{
    let e = block.entries;
    let n = store(e, pos_in_block, particle);
    assert forall|i: int, j: int|
        0 <= i < n.len() && 0 <= j < n.len() && i != j implies #[trigger] n[i].0 != #[trigger] n[j].0 by {
        if has_key(e, pos_in_block) {
            let k = key_index(e, pos_in_block);
            assert(e[k].0 == pos_in_block);
            if i != k && j != k {
                assert(n[i] == e[i] && n[j] == e[j]);
            } else if i == k {
                assert(n[j] == e[j]);
            } else {
                assert(n[i] == e[i]);
            }
        } else {
            if i < e.len() && j < e.len() {
                assert(n[i] == e[i] && n[j] == e[j]);
            } else if i == e.len() {
                assert(n[j] == e[j]);
                assert(e[j].0 != pos_in_block);
            } else {
                assert(n[i] == e[i]);
                assert(e[i].0 != pos_in_block);
            }
        }
    }
    assert forall|i: int| 0 <= i < n.len() implies pixel_in_texture(#[trigger] n[i].0) by {
        if has_key(e, pos_in_block) {
            let k = key_index(e, pos_in_block);
            if i != k {
                assert(n[i] == e[i]);
            }
        } else if i < e.len() {
            assert(n[i] == e[i]);
        }
    }
}

/// A written cell reads back as what was written, its pixel shows that
/// particle's colour, and every other cell of the block reads as before.
pub proof fn lemma_block_read_after_write(
    block: ParticleBlockView,
    pos_in_block: (i32, i32),
    particle: Particle,
    mark_dirty: bool,
    other: (i32, i32),
)
    requires
        block.wf(),
        pixel_in_texture(pos_in_block),
    ensures
        block.after_set(pos_in_block, particle, mark_dirty).particle(pos_in_block) == particle,
        other != pos_in_block ==> block.after_set(pos_in_block, particle, mark_dirty).particle(other)
            == block.particle(other),
        block.after_set(pos_in_block, particle, mark_dirty).texture[3 * (pos_in_block.0 + 8 * pos_in_block.1)]
            == color_of(particle).0,
        block.after_set(pos_in_block, particle, mark_dirty).texture[3 * (pos_in_block.0 + 8 * pos_in_block.1) + 1]
            == color_of(particle).1,
        block.after_set(pos_in_block, particle, mark_dirty).texture[3 * (pos_in_block.0 + 8 * pos_in_block.1) + 2]
            == color_of(particle).2,
        block.after_set(pos_in_block, particle, mark_dirty).dirty == (block.dirty || mark_dirty),
        block.after_set(pos_in_block, particle, mark_dirty).wf(),
        has_key(block.after_set(pos_in_block, particle, mark_dirty).entries, other) == (has_key(
            block.entries,
            other,
        ) || other == pos_in_block),
{
    let e = block.entries;
    let n = store(e, pos_in_block, particle);
    lemma_store_wf(block, pos_in_block, particle, mark_dirty);
    if has_key(e, other) {
        let j = key_index(e, other);
        assert(n[j].0 == other);
        assert(has_key(n, other));
    }
    if has_key(n, other) && other != pos_in_block {
        let j = key_index(n, other);
        if j < e.len() {
            assert(n[j] == e[j]);
            assert(has_key(e, other));
        }
    }
    if has_key(e, pos_in_block) {
        let k = key_index(e, pos_in_block);
        assert(n[k].0 == pos_in_block);
        assert(has_key(n, pos_in_block));
        let k2 = key_index(n, pos_in_block);
        if k2 != k {
            assert(n[k2] == e[k2]);
            assert(e[k2].0 == e[k].0);
        }
        if other != pos_in_block {
            if has_key(e, other) {
                let j = key_index(e, other);
                assert(n[j] == e[j]);
                assert(has_key(n, other));
                let j2 = key_index(n, other);
                if j2 != j {
                    assert(n[j2] == e[j2] || j2 == k);
                    assert(e[j2].0 == e[j].0);
                }
            } else {
                if has_key(n, other) {
                    let j2 = key_index(n, other);
                    assert(n[j2] == e[j2] || j2 == k);
                    assert(e[j2].0 == other);
                }
            }
        }
    } else {
        assert(n[e.len() as int].0 == pos_in_block);
        assert(has_key(n, pos_in_block));
        let k2 = key_index(n, pos_in_block);
        if k2 != e.len() {
            assert(n[k2] == e[k2]);
        }
        if other != pos_in_block {
            if has_key(e, other) {
                let j = key_index(e, other);
                assert(n[j] == e[j]);
                assert(has_key(n, other));
                let j2 = key_index(n, other);
                if j2 != j {
                    assert(j2 < e.len());
                    assert(n[j2] == e[j2]);
                }
            } else {
                if has_key(n, other) {
                    let j2 = key_index(n, other);
                    assert(j2 < e.len());
                    assert(n[j2] == e[j2]);
                }
            }
        }
    }
}

/// A new block's texture shows its cells: all air, all black.
pub proof fn lemma_new_block_shows_cells(pos: (i32, i32))
    ensures
        ParticleBlockView::empty_at(pos).texture_shows_cells(),
{
    let b = ParticleBlockView::empty_at(pos);
    assert forall|x: i32, y: i32| 0 <= x < BLOCK_SIZE && 0 <= y < BLOCK_SIZE implies {
        let idx = 3 * (x + 8 * y);
        let c = color_of(#[trigger] b.particle((x, y)));
        &&& b.texture[idx] == c.0
        &&& b.texture[idx + 1] == c.1
        &&& b.texture[idx + 2] == c.2
    } by {
        assert(!has_key(b.entries, (x, y)));
    }
}

/// Writing a cell of the block's square keeps the texture showing every
/// cell: the written one in its particle's colour, the others as before.
pub proof fn lemma_set_keeps_texture_showing_cells(
    block: ParticleBlockView,
    pos_in_block: (i32, i32),
    particle: Particle,
    mark_dirty: bool,
)
    requires
        block.wf(),
        block.texture_shows_cells(),
        0 <= pos_in_block.0 < BLOCK_SIZE,
        0 <= pos_in_block.1 < BLOCK_SIZE,
    ensures
        block.after_set(pos_in_block, particle, mark_dirty).texture_shows_cells(),
{
    let n = block.after_set(pos_in_block, particle, mark_dirty);
    let pi = texture_index(pos_in_block);
    assert forall|x: i32, y: i32| 0 <= x < BLOCK_SIZE && 0 <= y < BLOCK_SIZE implies {
        let idx = 3 * (x + 8 * y);
        let c = color_of(#[trigger] n.particle((x, y)));
        &&& n.texture[idx] == c.0
        &&& n.texture[idx + 1] == c.1
        &&& n.texture[idx + 2] == c.2
    } by {
        lemma_block_read_after_write(block, pos_in_block, particle, mark_dirty, (x, y));
        let idx = 3 * (x + 8 * y);
        if (x, y) != pos_in_block {
            assert(idx + 2 < pi || pi + 2 < idx);
            assert(block.particle((x, y)) == n.particle((x, y)));
            assert(n.texture[idx] == block.texture[idx]);
            assert(n.texture[idx + 1] == block.texture[idx + 1]);
            assert(n.texture[idx + 2] == block.texture[idx + 2]);
        }
    }
}

/// Sand is drawn yellow, `(195, 195, 0)`; air and boundaries black.
pub proof fn lemma_colors(particle: Particle)
    ensures
        color_of(particle) == (if particle == Particle::Sand {
            (195u8, 195u8, 0u8)
        } else {
            (0u8, 0u8, 0u8)
        }),
{
}

/// Every cell of a new block reads as air, and its texture is black.
pub proof fn lemma_new_block_is_air(pos: (i32, i32), pos_in_block: (i32, i32), i: int)
    requires
        0 <= i < TEXTURE_LEN,
    ensures
        ParticleBlockView::empty_at(pos).particle(pos_in_block) == Particle::Air,
        !has_key(ParticleBlockView::empty_at(pos).entries, pos_in_block),
        ParticleBlockView::empty_at(pos).texture[i] == 0,
        ParticleBlockView::empty_at(pos).wf(),
{
}

/// Looks up `key` in an association list, returning its index when it is there.
fn find_key(entries: &Vec<((i32, i32), Particle)>, key: (i32, i32)) -> (r: Option<usize>)
    requires
        keys_distinct(entries@),
    ensures
        r is None <==> !has_key(entries@, key),
        r matches Some(i) ==> i < entries@.len() && i == key_index(entries@, key) && entries@[i as int].0 == key,
{
    let mut i: usize = 0;
    while i < entries.len()
        invariant
            i <= entries@.len(),
            keys_distinct(entries@),
            forall|j: int| 0 <= j < i ==> #[trigger] entries@[j].0 != key,
        decreases entries@.len() - i,
    {
        if entries[i].0.0 == key.0 && entries[i].0.1 == key.1 {
            assert(has_key(entries@, key));
            let ghost k = key_index(entries@, key);
            assert(entries@[k].0 == key);
            return Some(i);
        }
        i = i + 1;
    }
    None
}

impl ParticleBlock {
    /// A block at `pos` with no cell written, black, clean and not updated.
    pub fn new(pos: (i32, i32)) -> (r: ParticleBlock)
        ensures
            r@ == ParticleBlockView::empty_at(pos),
            r@.wf(),
            r@.texture_shows_cells(),
    {
        let mut texture: Vec<u8> = Vec::new();
        let mut i: usize = 0;
        while i < TEXTURE_LEN
            invariant
                i <= TEXTURE_LEN,
                texture@ == Seq::new(i as nat, |j: int| 0u8),
            decreases TEXTURE_LEN - i,
        {
            texture.push(0u8);
            i = i + 1;
        }
        ParticleBlock { pos, dirty: false, particles: Vec::new(), texture, updated: false }
    }

    /// The global position of the block's first cell.
    pub fn get_pos(&self) -> (r: (i32, i32))
        ensures
            r == self@.pos,
    {
        self.pos
    }

    /// Whether a cell of the block was written with `mark_dirty` set.
    pub fn is_dirty(&self) -> (r: bool)
        ensures
            r == self@.dirty,
    {
        self.dirty
    }

    /// Whether the block was changed since its flag was last cleared.
    pub fn is_updated(&self) -> (r: bool)
        ensures
            r == self@.updated,
    {
        self.updated
    }

    /// Sets the `updated` flag.
    pub fn set_updated(&mut self, updated: bool)
        ensures
            final(self)@ == (ParticleBlockView { updated, ..old(self)@ }),
    {
        self.updated = updated;
    }

    /// Every written cell, by its global position, in the order of the first writes.
    ///
    /// In a well-formed block that is each written cell once: no global
    /// position comes twice, each item carries the particle the cell holds,
    /// and each written cell comes with its particle.
    pub fn all_particles(&self) -> (r: Vec<((i32, i32), Particle)>)
        requires
            shift_fits(self@.entries, self@.pos),
        ensures
            r@.len() == self@.entries.len(),
            forall|i: int|
                0 <= i < r@.len() ==> #[trigger] r@[i] == ((
                    (self@.entries[i].0.0 + self@.pos.0) as i32,
                    (self@.entries[i].0.1 + self@.pos.1) as i32,
                ), self@.entries[i].1),
            self@.wf() ==> forall|i: int, j: int|
                0 <= i < r@.len() && 0 <= j < r@.len() && i != j ==> #[trigger] r@[i].0 != #[trigger] r@[j].0,
            self@.wf() ==> forall|i: int|
                0 <= i < r@.len() ==> has_key(self@.entries, self@.entries[i].0) && #[trigger] r@[i].1
                    == self@.particle(self@.entries[i].0),
            self@.wf() ==> forall|k: (i32, i32)|
                #[trigger] has_key(self@.entries, k) ==> r@.contains(
                    (((k.0 + self@.pos.0) as i32, (k.1 + self@.pos.1) as i32), self@.particle(k)),
                ),
    {
        let mut r: Vec<((i32, i32), Particle)> = Vec::new();
        let mut i: usize = 0;
        while i < self.particles.len()
            invariant
                i <= self.particles@.len(),
                shift_fits(self.particles@, self.pos),
                r@.len() == i,
                forall|j: int|
                    0 <= j < i ==> #[trigger] r@[j] == ((
                        (self.particles@[j].0.0 + self.pos.0) as i32,
                        (self.particles@[j].0.1 + self.pos.1) as i32,
                    ), self.particles@[j].1),
            decreases self.particles@.len() - i,
        {
            let (k, p) = self.particles[i];
            assert(i32::MIN <= shifted(self.particles@[i as int].0, self.pos).0 <= i32::MAX);
            assert(i32::MIN <= shifted(self.particles@[i as int].0, self.pos).1 <= i32::MAX);
            r.push(((k.0 + self.pos.0, k.1 + self.pos.1), p));
            i = i + 1;
        }
        proof {
            let e = self@.entries;
            let pos = self@.pos;
            if self@.wf() {
                assert forall|a: int, b: int|
                    0 <= a < r@.len() && 0 <= b < r@.len() && a != b implies #[trigger] r@[a].0
                    != #[trigger] r@[b].0 by {
                    assert(e[a].0 != e[b].0);
                    assert(i32::MIN <= shifted(e[a].0, pos).0 <= i32::MAX);
                    assert(i32::MIN <= shifted(e[a].0, pos).1 <= i32::MAX);
                    assert(i32::MIN <= shifted(e[b].0, pos).0 <= i32::MAX);
                    assert(i32::MIN <= shifted(e[b].0, pos).1 <= i32::MAX);
                }
                assert forall|a: int| 0 <= a < r@.len() implies has_key(e, e[a].0) && #[trigger] r@[a].1
                    == self@.particle(e[a].0) by {
                    lemma_entry_is_cell(e, a);
                }
                assert forall|k: (i32, i32)| #[trigger] has_key(e, k) implies r@.contains(
                    (((k.0 + pos.0) as i32, (k.1 + pos.1) as i32), self@.particle(k)),
                ) by {
                    let a = key_index(e, k);
                    lemma_entry_is_cell(e, a);
                    assert(r@[a] == (((k.0 + pos.0) as i32, (k.1 + pos.1) as i32), self@.particle(k)));
                }
            }
        }
        r
    }

    /// The particle at a position inside the block: air where nothing was written.
    pub fn get_particle(&self, pos_in_block: (i32, i32)) -> (r: &Particle)
        requires
            self@.wf(),
        ensures
            *r == self@.particle(pos_in_block),
    {
        match find_key(&self.particles, pos_in_block) {
            Some(i) => &self.particles[i].1,
            None => &Particle::Air,
        }
    }

    /// Writes a cell: stores the particle, paints its pixel, marks the block
    /// updated, and dirty where `mark_dirty` is set (a dirty block stays dirty).
    pub fn set_particle(&mut self, pos_in_block: (i32, i32), particle: Particle, mark_dirty: bool)
        requires
            old(self)@.wf(),
            pixel_in_texture(pos_in_block),
        ensures
            final(self)@ == old(self)@.after_set(pos_in_block, particle, mark_dirty),
            final(self)@.wf(),
            old(self)@.texture_shows_cells() && 0 <= pos_in_block.0 < BLOCK_SIZE && 0 <= pos_in_block.1
                < BLOCK_SIZE ==> final(self)@.texture_shows_cells(),
    {
        match find_key(&self.particles, pos_in_block) {
            Some(i) => {
                self.particles[i] = (pos_in_block, particle);
            },
            None => {
                self.particles.push((pos_in_block, particle));
            },
        }
        if mark_dirty {
            self.dirty = true;
        }
        self.updated = true;
        let (r, g, b) = get_color(particle);
        let idx = ((pos_in_block.0 * 3) + (pos_in_block.1 * BLOCK_SIZE * 3)) as usize;
        self.texture[idx] = r;
        self.texture[idx + 1] = g;
        self.texture[idx + 2] = b;
        proof {
            let e = old(self)@.entries;
            assert(self.particles@ == store(e, pos_in_block, particle));
            lemma_store_wf(old(self)@, pos_in_block, particle, mark_dirty);
            if old(self)@.texture_shows_cells() && 0 <= pos_in_block.0 < BLOCK_SIZE && 0 <= pos_in_block.1
                < BLOCK_SIZE {
                lemma_set_keeps_texture_showing_cells(old(self)@, pos_in_block, particle, mark_dirty);
            }
            assert(self.texture@ == paint(old(self)@.texture, pos_in_block, particle));
        }
    }

    /// The block's texture: `TEXTURE_LEN` bytes, three per cell, row after row.
    pub fn get_texture(&self) -> (r: &[u8])
        ensures
            r@ == self@.texture,
    {
        self.texture.as_slice()
    }

    /// A copy of the block.
    fn copy_of(&self) -> (r: ParticleBlock)
        ensures
            r@ == self@,
    {
        let mut particles: Vec<((i32, i32), Particle)> = Vec::new();
        let mut i: usize = 0;
        while i < self.particles.len()
            invariant
                i <= self.particles@.len(),
                particles@ == self.particles@.take(i as int),
            decreases self.particles@.len() - i,
        {
            particles.push(self.particles[i]);
            i = i + 1;
            assert(particles@ == self.particles@.take(i as int));
        }
        assert(particles@ == self.particles@);
        let mut texture: Vec<u8> = Vec::new();
        let mut j: usize = 0;
        while j < self.texture.len()
            invariant
                j <= self.texture@.len(),
                texture@ == self.texture@.take(j as int),
            decreases self.texture@.len() - j,
        {
            texture.push(self.texture[j]);
            j = j + 1;
            assert(texture@ == self.texture@.take(j as int));
        }
        assert(texture@ == self.texture@);
        ParticleBlock { pos: self.pos, dirty: self.dirty, particles, texture, updated: self.updated }
    }
}

impl Clone for ParticleBlock {
    /// A copy of the block.
    fn clone(&self) -> (r: ParticleBlock)
        ensures
            r@ == self@,
    {
        self.copy_of()
    }
}

/// The colour in which a particle is drawn: sand yellow, everything else black.
pub fn get_color(particle: Particle) -> (r: (u8, u8, u8))
    ensures
        r == color_of(particle),
{
    match particle {
        Particle::Sand => (195, 195, 0),
        _ => (0, 0, 0),
    }
}

} // verus!
