use vstd::prelude::*;
use crate::color::Color;
use crate::enemy::Enemy;
use crate::framebuffer::Framebuffer;
use crate::grid::Grid;
use crate::player::Player;
use crate::render::{column_color, render_world, slice_spec, DEPTH_INFINITY};
use crate::sprite::{paint_enemies, render_enemies};
use crate::textures::TextureManager;
use crate::trig::TrigTable;

verus! {

/// The pixels of a `w` by `h` screen showing walls, floor and ceiling only.
pub open spec fn world_pixels(
    maze: &Grid,
    p: Player,
    trig: &TrigTable,
    textures: &TextureManager,
    w: int,
    h: int,
    level: u32,
) -> Seq<Color> {
    Seq::new(
        (w * h) as nat,
        |i: int| column_color(slice_spec(maze, p, trig, i % w, w, h), i / w, p, trig, textures, h, level),
    )
}

/// Marks every depth-buffer entry as not yet written.
pub fn reset_depth_buffer(depth_buffer: &mut Vec<u64>)
    ensures
        final(depth_buffer)@.len() == old(depth_buffer)@.len(),
        forall|i: int| 0 <= i < final(depth_buffer)@.len() ==> #[trigger] final(depth_buffer)@[i] == DEPTH_INFINITY,
{
    let mut i: usize = 0;
    while i < depth_buffer.len()
        invariant
            0 <= i <= depth_buffer@.len(),
            depth_buffer@.len() == old(depth_buffer)@.len(),
            forall|j: int| 0 <= j < i ==> #[trigger] depth_buffer@[j] == DEPTH_INFINITY,
        decreases depth_buffer.len() - i,
    {
        depth_buffer.set(i, DEPTH_INFINITY);
        i = i + 1;
    }
}

/// One frame of the 3D view: the depth buffer is reset, every column is cast and
/// painted (which writes every depth entry), and only then are the sprites composited
/// against it.
pub fn render_frame(
    framebuffer: &mut Framebuffer,
    player: &Player,
    maze: &Grid,
    texture_cache: &TextureManager,
    depth_buffer: &mut Vec<u64>,
    enemies: &Vec<Enemy>,
    current_level: u32,
    trig: &TrigTable,
)
    requires
        old(framebuffer).wf(),
        old(depth_buffer)@.len() == old(framebuffer).width,
        player.wf(),
        maze.wf(),
        trig.wf(),
        texture_cache.wf(),
        forall|i: int| 0 <= i < enemies@.len() ==> (#[trigger] enemies@[i]).wf(),
    ensures
        final(framebuffer).wf(),
        final(framebuffer).width == old(framebuffer).width,
        final(framebuffer).height == old(framebuffer).height,
        final(depth_buffer)@.len() == old(depth_buffer)@.len(),
        forall|i: int|
            0 <= i < old(framebuffer).width ==> #[trigger] final(depth_buffer)@[i] == slice_spec(
                maze,
                *player,
                trig,
                i,
                old(framebuffer).width as int,
                old(framebuffer).height as int,
            ).hit.distance,
        forall|i: int| 0 <= i < old(framebuffer).width ==> #[trigger] final(depth_buffer)@[i] != DEPTH_INFINITY,
        final(framebuffer).pixel_data@ == paint_enemies(
            world_pixels(
                maze,
                *player,
                trig,
                texture_cache,
                old(framebuffer).width as int,
                old(framebuffer).height as int,
                current_level,
            ),
            *player,
            enemies@,
            texture_cache,
            trig,
            final(depth_buffer)@,
            old(framebuffer).width as int,
            old(framebuffer).height as int,
            enemies@.len() as int,
        ),
{
    reset_depth_buffer(depth_buffer);
    render_world(framebuffer, player, maze, texture_cache, depth_buffer, current_level, trig);
    proof {
        let w = framebuffer.width as int;
        let h = framebuffer.height as int;
        let wp = world_pixels(maze, *player, trig, texture_cache, w, h, current_level);
        assert forall|i: int| 0 <= i < w * h implies #[trigger] framebuffer.pixel_data@[i] == wp[i] by {
            vstd::arithmetic::div_mod::lemma_fundamental_div_mod(i, w);
            vstd::arithmetic::div_mod::lemma_mod_bound(i, w);
            vstd::arithmetic::div_mod::lemma_div_pos_is_pos(i, w);
            assert(i / w < h) by {
                vstd::arithmetic::div_mod::lemma_div_is_ordered(i, w * h - 1, w);
                assert(w * h - 1 == (h - 1) * w + (w - 1)) by (nonlinear_arith);
                vstd::arithmetic::div_mod::lemma_fundamental_div_mod_converse(w * h - 1, w, h - 1, w - 1);
            }
            assert(framebuffer.in_bounds(i % w, i / w));
            assert(i == (i / w) * w + i % w) by (nonlinear_arith)
                requires
                    i == w * (i / w) + i % w,
            {
            }
            assert(framebuffer.pixel(i % w, i / w) == column_color(
                slice_spec(maze, *player, trig, i % w, w, h),
                i / w,
                *player,
                trig,
                texture_cache,
                h,
                current_level,
            ));
            assert(wp[i] == column_color(
                slice_spec(maze, *player, trig, i % w, w, h),
                i / w,
                *player,
                trig,
                texture_cache,
                h,
                current_level,
            ));
        }
        assert(framebuffer.pixel_data@ =~= wp);
    }
    render_enemies(framebuffer, player, texture_cache, depth_buffer, enemies, trig);
}

} // verus!
