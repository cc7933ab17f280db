//! The server side: the world, its blocks, and the frame that advances them.
use vstd::prelude::*;

pub mod game;
pub mod particles;
pub mod simulation;

use crate::msg::{msgs_view, Msg, MsgView};
use crate::particle::Particle;
use crate::server::game::{
    block_index, block_origin, dirty_positions, has_block_at, lemma_after_set_blocks,
    lemma_world_read_after_write, pos_bounded, World, WorldView, WriteState, WriteStateView,
};
use crate::server::particles::{keys_near, shift_fits, ParticleBlock, ParticleBlockView, BLOCK_SIZE};
use crate::server::simulation::{is_sideways, movable, particle_step, update_particle};

verus! {

/// The cells of a block by their global positions, in the order of the block's entries.
pub open spec fn block_parts(block: ParticleBlockView) -> Seq<((i32, i32), Particle)> {
    Seq::new(
        block.entries.len(),
        |i: int|
            (
                (
                    (block.entries[i].0.0 + block.pos.0) as i32,
                    (block.entries[i].0.1 + block.pos.1) as i32,
                ),
                block.entries[i].1,
            ),
    )
}

/// Every cell of a block, by its global position, leaves room to move.
pub open spec fn parts_movable(block: ParticleBlockView) -> bool {
    &&& shift_fits(block.entries, block.pos)
    &&& forall|i: int| 0 <= i < block.entries.len() ==> movable(#[trigger] block_parts(block)[i].0)
}

/// The write state after the particles `parts` are simulated one after the
/// other against `read`, the `i`-th with the column offset `choices[i]`.
pub open spec fn run_particles(
    read: WorldView,
    write: WriteStateView,
    parts: Seq<((i32, i32), Particle)>,
    choices: Seq<int>,
) -> WriteStateView
    decreases parts.len(),
{
    if parts.len() == 0 {
        write
    } else {
        particle_step(
            read,
            run_particles(read, write, parts.drop_last(), choices.drop_last()),
            parts.last().0,
            parts.last().1,
            choices.last(),
        )
    }
}

/// Column offsets for `n` particles, each one that a grain may take.
pub open spec fn valid_choices(choices: Seq<int>, n: nat) -> bool {
    &&& choices.len() == n
    &&& forall|i: int| 0 <= i < choices.len() ==> is_sideways(#[trigger] choices[i])
}

/// `after` is `before` with every particle of the block of `read` that the
/// written block falls into simulated, in the order of the block's entries,
/// for some column offsets that a grain may take.
pub open spec fn is_update_of(read: WorldView, before: WriteStateView, after: WriteStateView) -> bool {
    exists|choices: Seq<int>|
        valid_choices(choices, block_parts(read.block(block_origin(before.block.pos))).len())
            && after == #[trigger] run_particles(
            read,
            before,
            block_parts(read.block(block_origin(before.block.pos))),
            choices,
        )
}

/// Simulates, against `read`, every particle of the block of `read` that the
/// written block falls into, one after the other in the order of its entries.
pub fn update(read: &World, write: &mut WriteState)
    requires
        read@.wf(),
        old(write)@.wf(),
        read@.has_block(block_origin(old(write)@.block.pos)),
        parts_movable(read@.block(block_origin(old(write)@.block.pos))),
    ensures
        final(write)@.wf(),
        final(write)@.block.pos == old(write)@.block.pos,
        keys_near(old(write)@.block.entries) ==> keys_near(final(write)@.block.entries),
        is_update_of(read@, old(write)@, final(write)@),
{
    let ghost w0 = write@;
    let ghost b = read@.block(block_origin(w0.block.pos));
    let ghost parts = block_parts(b);
    let block = read.get_block(write.get_block_pos()).unwrap();
    let all = block.all_particles();
    assert(all@ == parts);
    let ghost mut choices: Seq<int> = Seq::empty();
    let mut i: usize = 0;
    while i < all.len()
        invariant
            read@.wf(),
            all@ == parts,
            parts == block_parts(b),
            parts_movable(b),
            i <= parts.len(),
            write@.wf(),
            write@.block.pos == w0.block.pos,
            keys_near(w0.block.entries) ==> keys_near(write@.block.entries),
            valid_choices(choices, i as nat),
            write@ == run_particles(read@, w0, parts.take(i as int), choices),
        decreases parts.len() - i,
    {
        let (pos, particle) = all[i];
        assert(movable(block_parts(b)[i as int].0));
        let ghost before = write@;
        update_particle(pos, particle, read, write);
        proof {
            let s = choose|s: int| is_sideways(s) && write@ == #[trigger] particle_step(read@, before, pos, particle, s);
            let c2 = choices.push(s);
            assert(parts.take(i as int + 1).drop_last() =~= parts.take(i as int));
            assert(c2.drop_last() =~= choices);
            assert(parts.take(i as int + 1).last() == (pos, particle));
            choices = c2;
        }
        i = i + 1;
    }
    assert(parts.take(i as int) =~= parts);
}

/// The writes that a batch of messages requests: the position and particle
/// of each `SetParticle`, in order; a message of another kind requests none.
pub open spec fn input_writes(msgs: Seq<MsgView>) -> Seq<((i32, i32), Particle)>
    decreases msgs.len(),
{
    if msgs.len() == 0 {
        Seq::empty()
    } else {
        let rest = input_writes(msgs.drop_last());
        match msgs.last() {
            MsgView::SetParticle { x, y, particle } => rest.push(((x, y), particle)),
            _ => rest,
        }
    }
}

/// The world after `writes` are made one after the other, each marking its
/// block dirty; or the position of the first write whose pixel would fall
/// outside the texture of its block.
pub open spec fn apply_writes(w: WorldView, writes: Seq<((i32, i32), Particle)>) -> Result<WorldView, (i32, i32)>
    decreases writes.len(),
{
    if writes.len() == 0 {
        Ok(w)
    } else {
        match apply_writes(w, writes.drop_last()) {
            Err(p) => Err(p),
            Ok(w1) => {
                let g = writes.last().0;
                if w1.writable(g) {
                    Ok(w1.after_set(g, writes.last().1, true))
                } else {
                    Err(g)
                }
            },
        }
    }
}

/// Once a prefix of the writes fails, all of them fail at the same position.
proof fn lemma_apply_writes_err(w: WorldView, writes: Seq<((i32, i32), Particle)>, i: int)
    requires
        0 <= i <= writes.len(),
        apply_writes(w, writes.take(i)) is Err,
    ensures
        apply_writes(w, writes) == apply_writes(w, writes.take(i)),
    decreases writes.len() - i,
{
    if i < writes.len() {
        assert(writes.take(i + 1).drop_last() =~= writes.take(i));
        lemma_apply_writes_err(w, writes, i + 1);
    } else {
        assert(writes.take(i) =~= writes);
    }
}

/// The world `w` after each clean block of `blocks` is stored in it, in order.
pub open spec fn copy_clean(w: WorldView, blocks: Seq<ParticleBlockView>) -> WorldView
    decreases blocks.len(),
{
    if blocks.len() == 0 {
        w
    } else {
        let w1 = copy_clean(w, blocks.drop_last());
        if blocks.last().dirty {
            w1
        } else {
            w1.with_block(blocks.last())
        }
    }
}

/// The write state in which a dirty block at `pos` is rebuilt: an empty block
/// there, marked updated, with no move queued.
pub open spec fn fresh_state(pos: (i32, i32)) -> WriteStateView {
    WriteStateView {
        block: ParticleBlockView { updated: true, ..ParticleBlockView::empty_at(pos) },
        moves: Seq::empty(),
    }
}

/// The block at `pos` rebuilt from the particles of `read`, with the column
/// offsets `choices`.
pub open spec fn rebuilt(read: WorldView, pos: (i32, i32), choices: Seq<int>) -> WriteStateView {
    run_particles(read, fresh_state(pos), block_parts(read.block(block_origin(pos))), choices)
}

/// The world `w` after the blocks at the positions `dirty` are rebuilt from
/// `read` and stored, the `k`-th with the offsets `cs[k]`, with the moves
/// that fell outside them, in order.
pub open spec fn write_dirty(
    read: WorldView,
    w: WorldView,
    dirty: Seq<(i32, i32)>,
    cs: Seq<Seq<int>>,
) -> (WorldView, Seq<((i32, i32), Particle)>)
    decreases dirty.len(),
{
    if dirty.len() == 0 {
        (w, Seq::empty())
    } else {
        let (w1, m1) = write_dirty(read, w, dirty.drop_last(), cs.drop_last());
        let ws = rebuilt(read, dirty.last(), cs.last());
        (w1.with_block(ws.block), m1 + ws.moves)
    }
}

/// Column offsets for every particle of every block at the positions `dirty`.
pub open spec fn valid_block_choices(read: WorldView, dirty: Seq<(i32, i32)>, cs: Seq<Seq<int>>) -> bool {
    &&& cs.len() == dirty.len()
    &&& forall|k: int|
        0 <= k < cs.len() ==> valid_choices(
            #[trigger] cs[k],
            block_parts(read.block(block_origin(dirty[k]))).len(),
        )
}

/// One `TextureUpdate` for each updated block, in the order of the blocks.
pub open spec fn texture_messages(blocks: Seq<ParticleBlockView>) -> Seq<MsgView>
    decreases blocks.len(),
{
    if blocks.len() == 0 {
        Seq::empty()
    } else {
        let rest = texture_messages(blocks.drop_last());
        let b = blocks.last();
        if b.updated {
            rest.push(MsgView::TextureUpdate { x: b.pos.0, y: b.pos.1, data: b.texture })
        } else {
            rest
        }
    }
}

/// The outcome of a frame on the worlds `read` and `write`, with the
/// messages `msgs` received and the column offsets `cs`: the new read world,
/// the new write world and the messages to send; or the position of a write
/// whose pixel would fall outside its block's texture.
///
/// The requested writes go into `read`, its `updated` flags are cleared, its
/// clean blocks are copied into `write` and its dirty ones rebuilt there;
/// the moves that fell outside the rebuilt blocks are then written into
/// `write`, which sends a texture for each updated block, and the two
/// worlds trade places.
pub open spec fn frame(read: WorldView, write: WorldView, msgs: Seq<MsgView>, cs: Seq<Seq<int>>) -> Result<
    (WorldView, WorldView, Seq<MsgView>),
    (i32, i32),
> {
    match apply_writes(read, input_writes(msgs)) {
        Err(p) => Err(p),
        Ok(r1) => {
            let r2 = r1.flags_cleared();
            let w1 = copy_clean(write, r2.blocks);
            let (w2, moves) = write_dirty(r2, w1, dirty_positions(r2.blocks), cs);
            match apply_writes(w2, moves) {
                Err(p) => Err(p),
                Ok(w3) => Ok((w3, r2, texture_messages(w3.blocks))),
            }
        },
    }
}

/// Column offsets for a frame: one for every particle of every block that
/// the frame rebuilds.
pub open spec fn valid_frame_choices(read: WorldView, msgs: Seq<MsgView>, cs: Seq<Seq<int>>) -> bool {
    match apply_writes(read, input_writes(msgs)) {
        Err(_) => true,
        Ok(r1) => valid_block_choices(
            r1.flags_cleared(),
            dirty_positions(r1.flags_cleared().blocks),
            cs,
        ),
    }
}

/// No two blocks of a sequence stand at one position.
pub open spec fn distinct_positions(blocks: Seq<ParticleBlockView>) -> bool {
    forall|i: int, j: int|
        0 <= i < blocks.len() && 0 <= j < blocks.len() && i != j ==> #[trigger] blocks[i].pos
            != #[trigger] blocks[j].pos
}

/// Storing a block puts it at its position and leaves every other position as it was.
pub proof fn lemma_with_block_lookup(w: WorldView, b: ParticleBlockView, q: (i32, i32))
    requires
        distinct_positions(w.blocks),
    ensures
        distinct_positions(w.with_block(b).blocks),
        w.with_block(b).has_block(b.pos),
        w.with_block(b).block(b.pos) == b,
        q != b.pos ==> w.with_block(b).has_block(q) == w.has_block(q),
        q != b.pos && w.has_block(q) ==> w.with_block(b).block(q) == w.block(q),
{
    let n = w.with_block(b).blocks;
    let k = if w.has_block(b.pos) {
        block_index(w.blocks, b.pos)
    } else {
        w.blocks.len() as int
    };
    assert(n[k] == b);
    assert forall|i: int| 0 <= i < n.len() && i != k implies #[trigger] n[i] == w.blocks[i] by {}
    assert forall|i: int, j: int|
        0 <= i < n.len() && 0 <= j < n.len() && i != j implies #[trigger] n[i].pos != #[trigger] n[j].pos by {
        if i != k && j != k {
            assert(n[i] == w.blocks[i] && n[j] == w.blocks[j]);
        } else if i == k {
            assert(n[j] == w.blocks[j]);
            if w.has_block(b.pos) {
                assert(w.blocks[k].pos == b.pos);
            }
        } else {
            assert(n[i] == w.blocks[i]);
            if w.has_block(b.pos) {
                assert(w.blocks[k].pos == b.pos);
            }
        }
    }
    assert(has_block_at(n, b.pos));
    let k2 = block_index(n, b.pos);
    assert(k2 == k);
    if q != b.pos {
        if w.has_block(q) {
            let j = block_index(w.blocks, q);
            assert(j != k);
            assert(n[j] == w.blocks[j]);
            assert(has_block_at(n, q));
            let j2 = block_index(n, q);
            assert(j2 != k);
            assert(n[j2] == w.blocks[j2]);
        } else if has_block_at(n, q) {
            let j2 = block_index(n, q);
            assert(j2 != k);
            assert(n[j2] == w.blocks[j2]);
        }
    }
}

/// After the clean blocks are copied, each of them stands at its position,
/// and a position where no clean block stands is as it was.
proof fn lemma_copy_clean(w: WorldView, blocks: Seq<ParticleBlockView>, q: (i32, i32))
    requires
        distinct_positions(w.blocks),
        distinct_positions(blocks),
    ensures
        distinct_positions(copy_clean(w, blocks).blocks),
        forall|i: int|
            0 <= i < blocks.len() && !blocks[i].dirty ==> copy_clean(w, blocks).has_block(#[trigger] blocks[i].pos)
                && copy_clean(w, blocks).block(blocks[i].pos) == blocks[i],
        (forall|i: int| 0 <= i < blocks.len() && !blocks[i].dirty ==> #[trigger] blocks[i].pos != q) ==> (
        copy_clean(w, blocks).has_block(q) == w.has_block(q) && (w.has_block(q) ==> copy_clean(
            w,
            blocks,
        ).block(q) == w.block(q))),
    decreases blocks.len(),
{
    if blocks.len() > 0 {
        let init = blocks.drop_last();
        let b = blocks.last();
        assert(distinct_positions(init)) by {
            assert forall|i: int, j: int|
                0 <= i < init.len() && 0 <= j < init.len() && i != j implies #[trigger] init[i].pos
                != #[trigger] init[j].pos by {
                assert(init[i] == blocks[i] && init[j] == blocks[j]);
            }
        }
        lemma_copy_clean(w, init, q);
        let w1 = copy_clean(w, init);
        if !b.dirty {
            lemma_with_block_lookup(w1, b, q);
            assert forall|i: int|
                0 <= i < blocks.len() && !blocks[i].dirty implies copy_clean(w, blocks).has_block(
                #[trigger] blocks[i].pos,
            ) && copy_clean(w, blocks).block(blocks[i].pos) == blocks[i] by {
                if i < init.len() {
                    assert(blocks[i] == init[i]);
                    assert(blocks[i].pos != b.pos);
                    lemma_with_block_lookup(w1, b, blocks[i].pos);
                }
            }
            if forall|i: int| 0 <= i < blocks.len() && !blocks[i].dirty ==> #[trigger] blocks[i].pos != q {
                assert(blocks[blocks.len() - 1].pos != q);
                assert forall|i: int| 0 <= i < init.len() && !init[i].dirty implies #[trigger] init[i].pos != q by {
                    assert(init[i] == blocks[i]);
                }
            }
        } else {
            assert forall|i: int|
                0 <= i < blocks.len() && !blocks[i].dirty implies copy_clean(w, blocks).has_block(
                #[trigger] blocks[i].pos,
            ) && copy_clean(w, blocks).block(blocks[i].pos) == blocks[i] by {
                assert(i < init.len());
                assert(blocks[i] == init[i]);
            }
            if forall|i: int| 0 <= i < blocks.len() && !blocks[i].dirty ==> #[trigger] blocks[i].pos != q {
                assert forall|i: int| 0 <= i < init.len() && !init[i].dirty implies #[trigger] init[i].pos != q by {
                    assert(init[i] == blocks[i]);
                }
            }
        }
    }
}

/// After the dirty blocks are rebuilt, the `k`-th stands, rebuilt, at its
/// position, and a position that is not in the dirty list is as it was.
proof fn lemma_write_dirty(
    read: WorldView,
    w: WorldView,
    dirty: Seq<(i32, i32)>,
    cs: Seq<Seq<int>>,
    q: (i32, i32),
)
    requires
        distinct_positions(w.blocks),
        dirty.no_duplicates(),
        cs.len() == dirty.len(),
    ensures
        distinct_positions(write_dirty(read, w, dirty, cs).0.blocks),
        forall|k: int|
            0 <= k < dirty.len() ==> write_dirty(read, w, dirty, cs).0.has_block(#[trigger] dirty[k])
                && write_dirty(read, w, dirty, cs).0.block(dirty[k]) == rebuilt(read, dirty[k], cs[k]).block,
        !dirty.contains(q) ==> write_dirty(read, w, dirty, cs).0.has_block(q) == w.has_block(q) && (w.has_block(
            q,
        ) ==> write_dirty(read, w, dirty, cs).0.block(q) == w.block(q)),
    decreases dirty.len(),
{
    if dirty.len() > 0 {
        let d0 = dirty.drop_last();
        let c0 = cs.drop_last();
        let p = dirty.last();
        assert(d0.no_duplicates()) by {
            assert forall|i: int, j: int| 0 <= i < d0.len() && 0 <= j < d0.len() && i != j implies d0[i] != d0[j] by {
                assert(d0[i] == dirty[i] && d0[j] == dirty[j]);
            }
        }
        lemma_write_dirty(read, w, d0, c0, q);
        let (w1, m1) = write_dirty(read, w, d0, c0);
        let ws = rebuilt(read, p, cs.last());
        assert(ws.block.pos == p) by {
            lemma_rebuilt_pos(read, p, cs.last());
        }
        lemma_with_block_lookup(w1, ws.block, q);
        assert forall|k: int|
            0 <= k < dirty.len() implies write_dirty(read, w, dirty, cs).0.has_block(#[trigger] dirty[k])
            && write_dirty(read, w, dirty, cs).0.block(dirty[k]) == rebuilt(read, dirty[k], cs[k]).block by {
            if k < d0.len() {
                assert(dirty[k] == d0[k]);
                assert(cs[k] == c0[k]);
                assert(dirty[k] != p);
                lemma_with_block_lookup(w1, ws.block, dirty[k]);
            }
        }
        if !dirty.contains(q) {
            assert(q != p) by {
                assert(dirty[dirty.len() - 1] == p);
            }
            assert(!d0.contains(q)) by {
                if d0.contains(q) {
                    let i = choose|i: int| 0 <= i < d0.len() && d0[i] == q;
                    assert(dirty[i] == q);
                }
            }
        }
    }
}

/// Rebuilding a block keeps its position.
proof fn lemma_rebuilt_pos(read: WorldView, pos: (i32, i32), choices: Seq<int>)
    ensures
        rebuilt(read, pos, choices).block.pos == pos,
{
    lemma_run_keeps_pos(read, fresh_state(pos), block_parts(read.block(block_origin(pos))), choices);
}

/// Simulating particles keeps the position of the block being written.
proof fn lemma_run_keeps_pos(
    read: WorldView,
    write: WriteStateView,
    parts: Seq<((i32, i32), Particle)>,
    choices: Seq<int>,
)
    ensures
        run_particles(read, write, parts, choices).block.pos == write.block.pos,
    decreases parts.len(),
{
    if parts.len() > 0 {
        lemma_run_keeps_pos(read, write, parts.drop_last(), choices.drop_last());
    }
}

/// The dirty list holds no position twice when the blocks stand at distinct positions.
proof fn lemma_dirty_positions_distinct(blocks: Seq<ParticleBlockView>)
    requires
        distinct_positions(blocks),
    ensures
        dirty_positions(blocks).no_duplicates(),
        forall|p: (i32, i32)|
            dirty_positions(blocks).contains(p) ==> exists|i: int|
                0 <= i < blocks.len() && blocks[i].dirty && #[trigger] blocks[i].pos == p,
        forall|i: int|
            0 <= i < blocks.len() && blocks[i].dirty ==> dirty_positions(blocks).contains(#[trigger] blocks[i].pos),
    decreases blocks.len(),
{
    if blocks.len() > 0 {
        let init = blocks.drop_last();
        let b = blocks.last();
        assert(distinct_positions(init)) by {
            assert forall|i: int, j: int|
                0 <= i < init.len() && 0 <= j < init.len() && i != j implies #[trigger] init[i].pos
                != #[trigger] init[j].pos by {
                assert(init[i] == blocks[i] && init[j] == blocks[j]);
            }
        }
        lemma_dirty_positions_distinct(init);
        let d0 = dirty_positions(init);
        let d = dirty_positions(blocks);
        if b.dirty {
            assert(!d0.contains(b.pos)) by {
                if d0.contains(b.pos) {
                    let i = choose|i: int| 0 <= i < init.len() && init[i].dirty && #[trigger] init[i].pos == b.pos;
                    assert(blocks[i].pos == blocks[blocks.len() - 1].pos);
                }
            }
            assert forall|i: int, j: int| 0 <= i < d.len() && 0 <= j < d.len() && i != j implies d[i] != d[j] by {
                if i < d0.len() && j < d0.len() {
                    assert(d[i] == d0[i] && d[j] == d0[j]);
                } else if i < d0.len() {
                    assert(d[i] == d0[i]);
                    assert(d0.contains(d0[i]));
                } else if j < d0.len() {
                    assert(d[j] == d0[j]);
                    assert(d0.contains(d0[j]));
                }
            }
            assert forall|p: (i32, i32)| d.contains(p) implies exists|i: int|
                0 <= i < blocks.len() && blocks[i].dirty && #[trigger] blocks[i].pos == p by {
                let k = choose|k: int| 0 <= k < d.len() && d[k] == p;
                if k < d0.len() {
                    assert(d0.contains(p));
                    let i = choose|i: int| 0 <= i < init.len() && init[i].dirty && #[trigger] init[i].pos == p;
                    assert(blocks[i] == init[i]);
                } else {
                    assert(blocks[blocks.len() - 1].pos == p);
                }
            }
            assert forall|i: int| 0 <= i < blocks.len() && blocks[i].dirty implies d.contains(
                #[trigger] blocks[i].pos,
            ) by {
                if i < init.len() {
                    assert(blocks[i] == init[i]);
                    assert(d0.contains(init[i].pos));
                    let k = choose|k: int| 0 <= k < d0.len() && d0[k] == init[i].pos;
                    assert(d[k] == d0[k]);
                } else {
                    assert(d[d.len() - 1] == b.pos);
                }
            }
        } else {
            assert(d == d0);
            assert forall|p: (i32, i32)| d.contains(p) implies exists|i: int|
                0 <= i < blocks.len() && blocks[i].dirty && #[trigger] blocks[i].pos == p by {
                let i = choose|i: int| 0 <= i < init.len() && init[i].dirty && #[trigger] init[i].pos == p;
                assert(blocks[i] == init[i]);
            }
            assert forall|i: int| 0 <= i < blocks.len() && blocks[i].dirty implies d.contains(
                #[trigger] blocks[i].pos,
            ) by {
                assert(i < init.len());
                assert(blocks[i] == init[i]);
            }
        }
    }
}

/// In a frame, before the moves that left rebuilt blocks are written, every
/// block of the read world stands at its position in the write world: a
/// clean one copied as it is, a dirty one rebuilt, by the simulation, from
/// the read world (with the column offsets that chance picked for it).
pub proof fn lemma_frame_carries_blocks(read: WorldView, write: WorldView, cs: Seq<Seq<int>>, i: int)
    requires
        read.wf(),
        write.wf(),
        0 <= i < read.blocks.len(),
        cs.len() == dirty_positions(read.blocks).len(),
    ensures
        ({
            let w2 = write_dirty(read, copy_clean(write, read.blocks), dirty_positions(read.blocks), cs).0;
            let b = read.blocks[i];
            &&& w2.has_block(b.pos)
            &&& !b.dirty ==> w2.block(b.pos) == b
            &&& b.dirty ==> exists|k: int|
                0 <= k < cs.len() && dirty_positions(read.blocks)[k] == b.pos && w2.block(b.pos)
                    == #[trigger] rebuilt(read, b.pos, cs[k]).block
        }),
{
    let dirty = dirty_positions(read.blocks);
    let b = read.blocks[i];
    assert(distinct_positions(read.blocks));
    assert(distinct_positions(write.blocks));
    lemma_dirty_positions_distinct(read.blocks);
    lemma_copy_clean(write, read.blocks, b.pos);
    let w1 = copy_clean(write, read.blocks);
    lemma_write_dirty(read, w1, dirty, cs, b.pos);
    if b.dirty {
        assert(dirty.contains(read.blocks[i].pos));
        let k = choose|k: int| 0 <= k < dirty.len() && dirty[k] == b.pos;
        assert(rebuilt(read, dirty[k], cs[k]) == rebuilt(read, b.pos, cs[k]));
    } else {
        assert(!dirty.contains(b.pos)) by {
            if dirty.contains(b.pos) {
                let j = choose|j: int| 0 <= j < read.blocks.len() && read.blocks[j].dirty && #[trigger] read.blocks[j].pos == b.pos;
                assert(j != i);
            }
        }
    }
}

/// The writes that a batch of messages requests are exactly its `SetParticle`
/// messages, one each, in the order they came: as many as there are such
/// messages, the `k`-th being the position and particle of the `k`-th of them.
pub proof fn lemma_input_writes_are_set_particles(msgs: Seq<MsgView>)
    ensures
        input_writes(msgs).len() == msgs.filter(|m: MsgView| m is SetParticle).len(),
        forall|k: int|
            0 <= k < input_writes(msgs).len() ==> (msgs.filter(|m: MsgView| m is SetParticle)[k] matches MsgView::SetParticle {
                x,
                y,
                particle,
            } && #[trigger] input_writes(msgs)[k] == ((x, y), particle)),
    decreases msgs.len(),
{
    reveal(Seq::filter);
    if msgs.len() > 0 {
        lemma_input_writes_are_set_particles(msgs.drop_last());
        let f0 = msgs.drop_last().filter(|m: MsgView| m is SetParticle);
        let f = msgs.filter(|m: MsgView| m is SetParticle);
        let w0 = input_writes(msgs.drop_last());
        let w = input_writes(msgs);
        if msgs.last() is SetParticle {
            assert(f == f0.push(msgs.last()));
            assert forall|k: int| 0 <= k < w.len() implies (f[k] matches MsgView::SetParticle {
                x,
                y,
                particle,
            } && #[trigger] w[k] == ((x, y), particle)) by {
                if k < w0.len() {
                    assert(f[k] == f0[k]);
                    assert(w[k] == w0[k]);
                }
            }
        } else {
            assert(f == f0);
            assert(w == w0);
        }
    }
}

/// A frame's messages are exactly one `TextureUpdate` for each updated block,
/// in the order of the blocks: as many as there are updated blocks, the
/// `k`-th carrying the position and the texture of the `k`-th of them.
pub proof fn lemma_texture_messages_are_updated_blocks(blocks: Seq<ParticleBlockView>)
    ensures
        texture_messages(blocks).len() == blocks.filter(|b: ParticleBlockView| b.updated).len(),
        forall|k: int|
            0 <= k < texture_messages(blocks).len() ==> {
                let b = blocks.filter(|b: ParticleBlockView| b.updated)[k];
                &&& b.updated
                &&& #[trigger] texture_messages(blocks)[k] == (MsgView::TextureUpdate {
                    x: b.pos.0,
                    y: b.pos.1,
                    data: b.texture,
                })
            },
    decreases blocks.len(),
{
    reveal(Seq::filter);
    if blocks.len() > 0 {
        lemma_texture_messages_are_updated_blocks(blocks.drop_last());
        let f0 = blocks.drop_last().filter(|b: ParticleBlockView| b.updated);
        let f = blocks.filter(|b: ParticleBlockView| b.updated);
        let t0 = texture_messages(blocks.drop_last());
        let t = texture_messages(blocks);
        if blocks.last().updated {
            assert(f == f0.push(blocks.last()));
            assert forall|k: int| 0 <= k < t.len() implies {
                let b = f[k];
                &&& b.updated
                &&& #[trigger] t[k] == (MsgView::TextureUpdate { x: b.pos.0, y: b.pos.1, data: b.texture })
            } by {
                if k < t0.len() {
                    assert(f[k] == f0[k]);
                    assert(t[k] == t0[k]);
                }
            }
        } else {
            assert(f == f0);
            assert(t == t0);
        }
    }
}

/// When every requested write succeeds, each one takes effect: the world
/// stays well-formed with the same block positions; a write into a block
/// leaves that block dirty; and where no later write goes to the same
/// position, the position holds the particle written there.
pub proof fn lemma_apply_writes_applies_each(w: WorldView, writes: Seq<((i32, i32), Particle)>)
    requires
        w.wf(),
    ensures
        apply_writes(w, writes) matches Ok(w2) ==> {
            &&& w2.wf()
            &&& forall|q: (i32, i32)| #[trigger] w2.has_block(q) == w.has_block(q)
            &&& forall|k: int|
                0 <= k < writes.len() && w.has_block(block_origin(writes[k].0)) ==> #[trigger] w2.block(
                    block_origin(writes[k].0),
                ).dirty
            &&& forall|k: int|
                0 <= k < writes.len() && w.has_block(block_origin(writes[k].0)) && (forall|j: int|
                    k < j < writes.len() ==> writes[j].0 != writes[k].0) ==> #[trigger] w2.particle(writes[k].0)
                    == writes[k].1
        },
    decreases writes.len(),
{
    if writes.len() > 0 {
        let init = writes.drop_last();
        lemma_apply_writes_applies_each(w, init);
        if let Ok(w1) = apply_writes(w, init) {
            let (g, p) = writes.last();
            if w1.writable(g) {
                let w2 = w1.after_set(g, p, true);
                assert forall|q: (i32, i32)| #[trigger] w2.has_block(q) == w.has_block(q) by {
                    lemma_after_set_blocks(w1, g, p, true, q);
                    assert(w1.has_block(q) == w.has_block(q));
                }
                lemma_after_set_blocks(w1, g, p, true, g);
                assert forall|k: int|
                    0 <= k < writes.len() && w.has_block(block_origin(writes[k].0)) implies #[trigger] w2.block(
                    block_origin(writes[k].0),
                ).dirty by {
                    let o = block_origin(writes[k].0);
                    assert(w1.has_block(o) == w.has_block(o));
                    lemma_after_set_blocks(w1, g, p, true, o);
                    if k < init.len() {
                        assert(init[k] == writes[k]);
                        assert(w1.block(block_origin(init[k].0)).dirty);
                    }
                }
                assert forall|k: int|
                    0 <= k < writes.len() && w.has_block(block_origin(writes[k].0)) && (forall|j: int|
                        k < j < writes.len() ==> writes[j].0 != writes[k].0) implies #[trigger] w2.particle(
                    writes[k].0,
                ) == writes[k].1 by {
                    let gk = writes[k].0;
                    assert(w1.has_block(block_origin(gk)) == w.has_block(block_origin(gk)));
                    lemma_world_read_after_write(w1, g, p, true, gk);
                    if k < init.len() {
                        assert(init[k] == writes[k]);
                        assert forall|j: int| k < j < init.len() implies init[j].0 != init[k].0 by {
                            assert(init[j] == writes[j]);
                        }
                        assert(writes[writes.len() - 1].0 != gk);
                    }
                }
            }
        }
    }
}

/// Simulating the particles `a` and then `b` is simulating `a + b`, each with
/// its own column offset: particles are simulated one after the other, in
/// order, each against the same read world.
pub proof fn lemma_run_particles_in_order(
    read: WorldView,
    write: WriteStateView,
    a: Seq<((i32, i32), Particle)>,
    ca: Seq<int>,
    b: Seq<((i32, i32), Particle)>,
    cb: Seq<int>,
)
    requires
        ca.len() == a.len(),
        cb.len() == b.len(),
    ensures
        run_particles(read, write, a + b, ca + cb) == run_particles(read, run_particles(read, write, a, ca), b, cb),
        b.len() == 1 ==> run_particles(read, write, a + b, ca + cb) == particle_step(
            read,
            run_particles(read, write, a, ca),
            b[0].0,
            b[0].1,
            cb[0],
        ),
    decreases b.len(),
{
    if b.len() == 0 {
        assert(a + b =~= a);
        assert(ca + cb =~= ca);
    } else {
        lemma_run_particles_in_order(read, write, a, ca, b.drop_last(), cb.drop_last());
        assert((a + b).drop_last() =~= a + b.drop_last());
        assert((ca + cb).drop_last() =~= ca + cb.drop_last());
        assert((a + b).last() == b.last());
        assert((ca + cb).last() == cb.last());
        if b.len() == 1 {
            assert(b.drop_last() =~= Seq::<((i32, i32), Particle)>::empty());
            assert(cb.drop_last() =~= Seq::<int>::empty());
        }
    }
}

/// A dirty block is rebuilt from an empty, clean block at its position,
/// marked updated and black, with no move queued.
pub proof fn lemma_fresh_state(pos: (i32, i32), i: int)
    requires
        0 <= i < 192,
    ensures
        fresh_state(pos).block.pos == pos,
        fresh_state(pos).block.entries.len() == 0,
        !fresh_state(pos).block.dirty,
        fresh_state(pos).block.updated,
        fresh_state(pos).block.texture.len() == 192,
        fresh_state(pos).block.texture[i] == 0,
        fresh_state(pos).moves.len() == 0,
{
}

/// After a frame that succeeds, the old read world, which becomes the new
/// write world, is the read world with the requested writes made and every
/// `updated` flag cleared; and the messages are those of the new read world.
pub proof fn lemma_frame_outcome(read: WorldView, write: WorldView, msgs: Seq<MsgView>, cs: Seq<Seq<int>>)
    ensures
        frame(read, write, msgs, cs) matches Ok((new_read, new_write, out)) ==> {
            &&& apply_writes(read, input_writes(msgs)) matches Ok(r1) && {
                &&& new_write.blocks.len() == r1.blocks.len()
                &&& forall|i: int|
                    0 <= i < r1.blocks.len() ==> {
                        let b = #[trigger] new_write.blocks[i];
                        &&& !b.updated
                        &&& b.pos == r1.blocks[i].pos
                        &&& b.dirty == r1.blocks[i].dirty
                        &&& b.entries == r1.blocks[i].entries
                        &&& b.texture == r1.blocks[i].texture
                    }
            }
            &&& out == texture_messages(new_read.blocks)
        },
{
}

/// The writes that a batch of messages requests.
pub fn requested_writes(msgs: &Vec<Msg>) -> (r: Vec<((i32, i32), Particle)>)
    ensures
        r@ == input_writes(msgs_view(msgs@)),
{
    let ghost mv = msgs_view(msgs@);
    let mut r: Vec<((i32, i32), Particle)> = Vec::new();
    let mut i: usize = 0;
    while i < msgs.len()
        invariant
            i <= msgs@.len(),
            mv == msgs_view(msgs@),
            r@ == input_writes(mv.take(i as int)),
        decreases msgs@.len() - i,
    {
        assert(mv.take(i as int + 1).drop_last() =~= mv.take(i as int));
        assert(mv[i as int] == msgs@[i as int]@);
        match &msgs[i] {
            Msg::SetParticle { x, y, particle } => {
                r.push(((*x, *y), *particle));
            },
            _ => {},
        }
        i = i + 1;
    }
    assert(mv.take(i as int) =~= mv);
    r
}

/// Makes `writes` one after the other, each marking its block dirty, and
/// stops at the first whose pixel would fall outside its block's texture,
/// returning its position.
pub fn write_all(world: &mut World, writes: &Vec<((i32, i32), Particle)>) -> (r: Result<(), (i32, i32)>)
    requires
        old(world)@.wf(),
        old(world)@.simulable(),
    ensures
        final(world)@.wf(),
        final(world)@.simulable(),
        old(world)@.covers_grid() ==> final(world)@.covers_grid(),
        match apply_writes(old(world)@, writes@) {
            Ok(w) => r is Ok && final(world)@ == w,
            Err(p) => r == Err::<(), (i32, i32)>(p),
        },
{
    let ghost w0 = world@;
    let mut i: usize = 0;
    while i < writes.len()
        invariant
            i <= writes@.len(),
            world@.wf(),
            world@.simulable(),
            w0 == old(world)@,
            w0.covers_grid() ==> world@.covers_grid(),
            apply_writes(w0, writes@.take(i as int)) == Ok::<WorldView, (i32, i32)>(world@),
        decreases writes@.len() - i,
    {
        let (g, p) = writes[i];
        assert(writes@.take(i as int + 1).drop_last() =~= writes@.take(i as int));
        assert(writes@.take(i as int + 1).last() == (g, p));
        if !world.is_writable(g) {
            assert(apply_writes(w0, writes@.take(i as int + 1)) == Err::<WorldView, (i32, i32)>(g));
            proof {
                lemma_apply_writes_err(w0, writes@, i as int + 1);
            }
            assert(apply_writes(w0, writes@) == Err::<WorldView, (i32, i32)>(g));
            return Err(g);
        }
        world.set_particle(g, p, true);
        i = i + 1;
    }
    assert(writes@.take(i as int) =~= writes@);
    Ok(())
}

/// The cells of every block of a simulable world can be simulated.
proof fn lemma_simulable_block(w: WorldView, pos: (i32, i32))
    requires
        w.wf(),
        w.simulable(),
        w.has_block(pos),
    ensures
        block_origin(pos) == pos,
        pos_bounded(pos),
        parts_movable(w.block(pos)),
        keys_near(w.block(pos).entries),
{
    let i = block_index(w.blocks, pos);
    let b = w.blocks[i];
    assert(b.pos == pos);
    assert forall|j: int| 0 <= j < b.entries.len() implies movable(#[trigger] block_parts(b)[j].0) by {
        assert(-BLOCK_SIZE < b.entries[j].0.0 < BLOCK_SIZE);
        assert(-BLOCK_SIZE < b.entries[j].0.1 < BLOCK_SIZE);
    }
    assert forall|j: int| 0 <= j < b.entries.len() implies {
        let s = crate::server::particles::shifted(#[trigger] b.entries[j].0, b.pos);
        &&& i32::MIN <= s.0 <= i32::MAX
        &&& i32::MIN <= s.1 <= i32::MAX
    } by {
        assert(-BLOCK_SIZE < b.entries[j].0.0 < BLOCK_SIZE);
        assert(-BLOCK_SIZE < b.entries[j].0.1 < BLOCK_SIZE);
    }
}

/// Every position in the dirty list is the position of a block.
proof fn lemma_dirty_positions_are_blocks(blocks: Seq<ParticleBlockView>)
    ensures
        forall|k: int|
            0 <= k < dirty_positions(blocks).len() ==> has_block_at(blocks, #[trigger] dirty_positions(blocks)[k]),
    decreases blocks.len(),
{
    if blocks.len() > 0 {
        let init = blocks.drop_last();
        lemma_dirty_positions_are_blocks(init);
        let d = dirty_positions(blocks);
        assert forall|k: int| 0 <= k < d.len() implies has_block_at(blocks, #[trigger] d[k]) by {
            if k < dirty_positions(init).len() {
                assert(d[k] == dirty_positions(init)[k]);
                let i = choose|i: int| 0 <= i < init.len() && #[trigger] init[i].pos == d[k];
                assert(blocks[i].pos == d[k]);
            } else {
                assert(blocks[blocks.len() - 1].pos == d[k]);
            }
        }
    }
}

/// Copies every clean block of `read` into `write`, and returns the
/// positions of the dirty ones, in the order of the blocks of `read`.
pub fn copy_clean_blocks(read: &World, write: &mut World) -> (r: Vec<(i32, i32)>)
    requires
        read@.wf(),
        read@.simulable(),
        old(write)@.wf(),
        old(write)@.simulable(),
    ensures
        final(write)@ == copy_clean(old(write)@, read@.blocks),
        final(write)@.wf(),
        final(write)@.simulable(),
        old(write)@.covers_grid() ==> final(write)@.covers_grid(),
        r@ == dirty_positions(read@.blocks),
{
    let ghost v = read@.blocks;
    let ghost w0 = write@;
    let blocks = read.all_blocks();
    let mut r: Vec<(i32, i32)> = Vec::new();
    let mut i: usize = 0;
    while i < blocks.len()
        invariant
            i <= blocks@.len(),
            blocks@.len() == v.len(),
            forall|k: int| 0 <= k < blocks@.len() ==> #[trigger] blocks@[k]@ == v[k],
            v == read@.blocks,
            read@.wf(),
            read@.simulable(),
            write@.wf(),
            write@.simulable(),
            write@ == copy_clean(w0, v.take(i as int)),
            w0 == old(write)@,
            w0.covers_grid() ==> write@.covers_grid(),
            r@ == dirty_positions(v.take(i as int)),
        decreases blocks@.len() - i,
    {
        assert(v.take(i as int + 1).drop_last() =~= v.take(i as int));
        let block = &blocks[i];
        assert(block@ == v[i as int]);
        if block.is_dirty() {
            r.push(block.get_pos());
        } else {
            assert(v[i as int].wf());
            write.set_block(block.clone());
        }
        i = i + 1;
    }
    assert(v.take(i as int) =~= v);
    r
}

/// A pool of worker threads from the `rayon` crate.
#[verifier::external_type_specification]
#[verifier::external_body]
pub struct ExThreadPool(rayon::ThreadPool);

/// Runs `update(read, &mut write)` on a worker of `pool` and returns the
/// updated write state.
///
/// Calls `rayon::ThreadPool::install` with a closure that makes that one
/// call. The crate's documentation and source show that `install` runs the
/// closure once in the pool, waits for it and returns what it returned (a
/// panic of the closure would be passed on; `update` does not panic under its
/// `requires`). The contract claims exactly the `requires` and `ensures` of
/// `update` for that one run.
#[verifier::external_body]
fn update_in_pool(pool: &rayon::ThreadPool, read: &World, write: WriteState) -> (r: WriteState)
    requires
        read@.wf(),
        write@.wf(),
        read@.has_block(block_origin(write@.block.pos)),
        parts_movable(read@.block(block_origin(write@.block.pos))),
    ensures
        r@.wf(),
        r@.block.pos == write@.block.pos,
        keys_near(write@.block.entries) ==> keys_near(r@.block.entries),
        is_update_of(read@, write@, r@),
{
    pool.install(move || {
        let mut write = write;
        update(read, &mut write);
        write
    })
}

/// Rebuilds, from `read`, the block at each of the positions `dirty`, one
/// after the other on a worker of `pool`, and stores it in `write`; returns the moves that fell outside the rebuilt
/// blocks, in order.
pub fn write_dirty_blocks(
    pool: &rayon::ThreadPool,
    read: &World,
    write: &mut World,
    dirty: &Vec<(i32, i32)>,
) -> (r: Vec<((i32, i32), Particle)>)
    requires
        read@.wf(),
        read@.simulable(),
        old(write)@.wf(),
        old(write)@.simulable(),
        forall|k: int| 0 <= k < dirty@.len() ==> read@.has_block(#[trigger] dirty@[k]),
    ensures
        final(write)@.wf(),
        final(write)@.simulable(),
        old(write)@.covers_grid() ==> final(write)@.covers_grid(),
        exists|cs: Seq<Seq<int>>|
            valid_block_choices(read@, dirty@, cs) && #[trigger] write_dirty(read@, old(write)@, dirty@, cs)
                == (final(write)@, r@),
{
    let ghost w0 = write@;
    let ghost mut cs: Seq<Seq<int>> = Seq::empty();
    let mut moves: Vec<((i32, i32), Particle)> = Vec::new();
    let mut i: usize = 0;
    while i < dirty.len()
        invariant
            i <= dirty@.len(),
            read@.wf(),
            read@.simulable(),
            forall|k: int| 0 <= k < dirty@.len() ==> read@.has_block(#[trigger] dirty@[k]),
            write@.wf(),
            write@.simulable(),
            w0 == old(write)@,
            w0.covers_grid() ==> write@.covers_grid(),
            valid_block_choices(read@, dirty@.take(i as int), cs),
            write_dirty(read@, w0, dirty@.take(i as int), cs) == (write@, moves@),
        decreases dirty@.len() - i,
    {
        let pos = dirty[i];
        assert(read@.has_block(dirty@[i as int]));
        proof {
            lemma_simulable_block(read@, pos);
        }
        let ws = WriteState::new(ParticleBlock::new(pos));
        assert(ws@ == fresh_state(pos));
        let ws = update_in_pool(pool, read, ws);
        let ghost c = choose|c: Seq<int>|
            valid_choices(c, block_parts(read@.block(block_origin(pos))).len())
                && ws@ == #[trigger] run_particles(
                read@,
                fresh_state(pos),
                block_parts(read@.block(block_origin(pos))),
                c,
            );
        let (finished, mut mv) = ws.finish();
        write.set_block(finished);
        let ghost before_moves = moves@;
        let ghost mv_v = mv@;
        moves.append(&mut mv);
        proof {
            let cs2 = cs.push(c);
            let d = dirty@.take(i as int + 1);
            assert(d.drop_last() =~= dirty@.take(i as int));
            assert(cs2.drop_last() =~= cs);
            assert(d.last() == pos);
            assert(moves@ =~= before_moves + mv_v);
            assert forall|k: int| 0 <= k < cs2.len() implies valid_choices(
                #[trigger] cs2[k],
                block_parts(read@.block(block_origin(d[k]))).len(),
            ) by {
                if k < cs.len() {
                    assert(cs2[k] == cs[k]);
                    assert(d[k] == dirty@.take(i as int)[k]);
                }
            }
            cs = cs2;
        }
        i = i + 1;
    }
    assert(dirty@.take(i as int) =~= dirty@);
    moves
}

/// One `TextureUpdate` for each updated block of the world, in the order of
/// the blocks, carrying its position and its texture.
pub fn texture_updates(world: &World) -> (r: Vec<Msg>)
    ensures
        msgs_view(r@) == texture_messages(world@.blocks),
{
    let ghost v = world@.blocks;
    let blocks = world.all_blocks();
    let mut r: Vec<Msg> = Vec::new();
    let mut i: usize = 0;
    while i < blocks.len()
        invariant
            i <= blocks@.len(),
            blocks@.len() == v.len(),
            forall|k: int| 0 <= k < blocks@.len() ==> #[trigger] blocks@[k]@ == v[k],
            msgs_view(r@) == texture_messages(v.take(i as int)),
        decreases blocks@.len() - i,
    {
        assert(v.take(i as int + 1).drop_last() =~= v.take(i as int));
        let block = &blocks[i];
        assert(block@ == v[i as int]);
        if block.is_updated() {
            let pos = block.get_pos();
            let data = vstd::slice::slice_to_vec(block.get_texture());
            let ghost before = r@;
            r.push(Msg::TextureUpdate { x: pos.0, y: pos.1, data });
            assert(msgs_view(r@) =~= msgs_view(before).push(r@.last()@));
        }
        i = i + 1;
    }
    assert(v.take(i as int) =~= v);
    r
}

/// Advances the game by one frame.
///
/// The `SetParticle` requests among `msgs_in` are written into `read`, its
/// `updated` flags cleared; its clean blocks are copied into `write` and its
/// dirty ones rebuilt there by the simulation, the moves that left a rebuilt
/// block are written into `write`, and the two worlds trade places: `read`
/// ends as the new world and `write` as the old one. Returns one
/// `TextureUpdate` for each updated block of the new world; or, where a
/// write would paint outside its block's texture, the position of that write.
pub fn step(
    pool: &rayon::ThreadPool,
    read: &mut World,
    write: &mut World,
    msgs_in: &Vec<Msg>,
) -> (r: Result<Vec<Msg>, (i32, i32)>)
    requires
        old(read)@.wf(),
        old(read)@.simulable(),
        old(write)@.wf(),
        old(write)@.simulable(),
    ensures
        final(read)@.wf(),
        final(read)@.simulable(),
        final(write)@.wf(),
        final(write)@.simulable(),
        old(read)@.covers_grid() && old(write)@.covers_grid() ==> final(read)@.covers_grid()
            && final(write)@.covers_grid(),
        exists|cs: Seq<Seq<int>>|
            valid_frame_choices(old(read)@, msgs_view(msgs_in@), cs) && match #[trigger] frame(
                old(read)@,
                old(write)@,
                msgs_view(msgs_in@),
                cs,
            ) {
                Ok((new_read, new_write, out)) => r is Ok && final(read)@ == new_read && final(write)@
                    == new_write && msgs_view(r->Ok_0@) == out,
                Err(p) => r == Err::<Vec<Msg>, (i32, i32)>(p),
            },
{
    let ghost r0 = read@;
    let ghost w0 = write@;
    let ghost mv = msgs_view(msgs_in@);
    let writes = requested_writes(msgs_in);
    match write_all(read, &writes) {
        Err(p) => {
            assert(frame(r0, w0, mv, Seq::empty()) == Err::<(WorldView, WorldView, Seq<MsgView>), (i32, i32)>(p));
            return Err(p);
        },
        Ok(()) => {},
    }
    let ghost r1 = read@;
    read.clear_update_flags();
    let ghost r2 = read@;
    let dirty = copy_clean_blocks(read, write);
    let ghost w1 = write@;
    proof {
        lemma_dirty_positions_are_blocks(r2.blocks);
    }
    let moves = write_dirty_blocks(pool, read, write, &dirty);
    let ghost cs = choose|cs: Seq<Seq<int>>|
        valid_block_choices(r2, dirty@, cs) && #[trigger] write_dirty(r2, w1, dirty@, cs) == (write@, moves@);
    let ghost w2 = write@;
    match write_all(write, &moves) {
        Err(p) => {
            assert(frame(r0, w0, mv, cs) == Err::<(WorldView, WorldView, Seq<MsgView>), (i32, i32)>(p));
            return Err(p);
        },
        Ok(()) => {},
    }
    let out = texture_updates(write);
    std::mem::swap(read, write);
    assert(frame(r0, w0, mv, cs) == Ok::<(WorldView, WorldView, Seq<MsgView>), (i32, i32)>((read@, write@, msgs_view(out@))));
    Ok(out)
}

} // verus!
