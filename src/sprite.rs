use vstd::prelude::*;
use crate::caster::abs;
use crate::color::Color;
use crate::enemy::Enemy;
use crate::fixed::{floor_div, isqrt, isqrt_spec};
use crate::framebuffer::{Framebuffer, Plot, paint, MAX_SCREEN_DIM};
use crate::player::Player;
use crate::render::PROJECTION;
use crate::textures::TextureManager;
use crate::trig::{normalize_angle, normalize_spec, TrigTable, ANGLE_UNITS};

verus! {

/// Sprites nearer than this are not drawn.
pub const SPRITE_NEAR: i64 = 50;

/// Sprites farther than this are not drawn.
pub const SPRITE_FAR: i64 = 1000;

/// Sprites are drawn up to this fraction (3/5) of the field of view off the facing
/// direction: more than half, so that a sprite partly inside the view is not dropped.
pub const SPRITE_FOV_MARGIN_NUM: i64 = 3;
pub const SPRITE_FOV_MARGIN_DEN: i64 = 5;

/// Texture size assumed for a sprite key with no image.
pub const DEFAULT_SPRITE_TEX: i64 = 128;

/// Where on screen a sprite is drawn, and from which texture.
#[derive(Clone, Copy, PartialEq, Eq, Structural, Debug)]
pub struct SpriteProjection {
    /// Straight-line distance from the player, the depth it is tested with.
    pub distance: i64,
    /// Side of the on-screen square, in pixels.
    pub size: i64,
    pub start_x: i64,
    pub end_x: i64,
    pub start_y: i64,
    pub end_y: i64,
    pub key: char,
    pub tex_w: i64,
    pub tex_h: i64,
}

/// Angle from the player's facing to the sprite, in `(-ANGLE_UNITS / 2, ANGLE_UNITS / 2]`.
pub open spec fn sprite_angle_diff(p: Player, e: &Enemy, trig: &TrigTable) -> int {
    normalize_spec(trig.atan2_spec(e.y - p.y, e.x - p.x) - p.a)
}

/// Straight-line distance from the player to the sprite (integer square root).
pub open spec fn sprite_distance(p: Player, e: &Enemy) -> int {
    isqrt_spec((p.x - e.x) * (p.x - e.x) + (p.y - e.y) * (p.y - e.y))
}

/// The on-screen square of a sprite: none more than `SPRITE_FOV_MARGIN_NUM /
/// SPRITE_FOV_MARGIN_DEN` of the field of view off the facing direction (wider than half
/// the field of view, so that sprites at its edges are drawn and do not pop),
/// nearer than `SPRITE_NEAR` or farther than `SPRITE_FAR`; otherwise a square whose side
/// is inversely proportional to the distance, centred on the sprite's angular offset.
#[verifier::opaque]
pub open spec fn projection_spec(
    p: Player,
    e: &Enemy,
    textures: &TextureManager,
    trig: &TrigTable,
    w: int,
    h: int,
) -> Option<SpriteProjection> {
    let diff = sprite_angle_diff(p, e, trig);
    let d = sprite_distance(p, e);
    let size = if d > 0 {
        h * PROJECTION / d
    } else {
        0
    };
    if abs(diff) * SPRITE_FOV_MARGIN_DEN > p.fov * SPRITE_FOV_MARGIN_NUM || d < SPRITE_NEAR || d > SPRITE_FAR || size < 1 {
        None
    } else {
        let sx = w / 2 + (diff * w) / (p.fov as int);
        let start_x = if sx - size / 2 < 0 {
            0
        } else {
            sx - size / 2
        };
        let start_y = if h / 2 - size / 2 < 0 {
            0
        } else {
            h / 2 - size / 2
        };
        let key = e.key_spec();
        Some(
            SpriteProjection {
                distance: d as i64,
                size: size as i64,
                start_x: start_x as i64,
                end_x: (if start_x + size > w {
                    w
                } else {
                    start_x + size
                }) as i64,
                start_y: start_y as i64,
                end_y: (if start_y + size > h {
                    h
                } else {
                    start_y + size
                }) as i64,
                key,
                tex_w: (if textures.has(key) {
                    textures.image_of(key).width as int
                } else {
                    DEFAULT_SPRITE_TEX as int
                }) as i64,
                tex_h: (if textures.has(key) {
                    textures.image_of(key).height as int
                } else {
                    DEFAULT_SPRITE_TEX as int
                }) as i64,
            },
        )
    }
}

/// A sprite within half the field of view of the facing direction, between the near and
/// far limits, and big enough to cover a pixel, is projected: it is not dropped at the
/// edges of the view.
pub proof fn lemma_sprite_in_view_projects(
    p: Player,
    e: &Enemy,
    textures: &TextureManager,
    trig: &TrigTable,
    w: int,
    h: int,
)
    requires
        p.wf(),
        2 * abs(sprite_angle_diff(p, e, trig)) <= p.fov,
        SPRITE_NEAR <= sprite_distance(p, e) <= SPRITE_FAR,
        h * PROJECTION / sprite_distance(p, e) >= 1,
    ensures
        projection_spec(p, e, textures, trig, w, h) is Some,
{
    reveal(projection_spec);
}

/// Bounds that every projection meets on a `w` by `h` screen.
pub open spec fn projection_ok(s: SpriteProjection, w: int, h: int) -> bool {
    &&& SPRITE_NEAR <= s.distance <= SPRITE_FAR
    &&& 1 <= s.size <= h * PROJECTION
    &&& 0 <= s.start_x
    &&& s.end_x <= w
    &&& 0 <= s.start_y
    &&& s.end_y <= h
    &&& s.end_x <= s.start_x + s.size
    &&& s.end_y <= s.start_y + s.size
    &&& 1 <= s.tex_w <= 0x0100_0000
    &&& 1 <= s.tex_h <= 0x0100_0000
}

/// Texture coordinate of screen offset `o` into a sprite `size` pixels across, on a
/// texture `t` texels across.
pub open spec fn sprite_tex_coord(o: int, size: int, t: int) -> int {
    let c = o * t / size;
    if c > t - 1 {
        t - 1
    } else {
        c
    }
}

/// The texel that covers screen pixel `(x, y)` of a projected sprite.
pub open spec fn sprite_texel(s: SpriteProjection, textures: &TextureManager, x: int, y: int) -> Color {
    textures.sample(
        s.key,
        sprite_tex_coord(x - s.start_x, s.size as int, s.tex_w as int),
        sprite_tex_coord(y - s.start_y, s.size as int, s.tex_h as int),
    )
}

/// Plots of screen column `x` over rows `[start_y, y_end)`: every texel that is not
/// fully transparent.
pub open spec fn column_plots(
    s: SpriteProjection,
    textures: &TextureManager,
    x: int,
    y_end: int,
) -> Seq<Plot>
    decreases y_end - s.start_y,
{
    if y_end <= s.start_y {
        Seq::empty()
    } else {
        let prev = column_plots(s, textures, x, y_end - 1);
        let c = sprite_texel(s, textures, x, y_end - 1);
        if c.a == 0 {
            prev
        } else {
            prev.push(Plot { x: x as i64, y: (y_end - 1) as i64, color: c })
        }
    }
}

/// Plots of the columns `[start_x, x_end)` of a sprite; a column whose depth-buffer
/// entry is not farther than the sprite is skipped whole.
pub open spec fn plots_upto(
    s: SpriteProjection,
    textures: &TextureManager,
    depth: Seq<u64>,
    x_end: int,
) -> Seq<Plot>
    decreases x_end - s.start_x,
{
    if x_end <= s.start_x {
        Seq::empty()
    } else {
        let prev = plots_upto(s, textures, depth, x_end - 1);
        if s.distance < depth[x_end - 1] {
            prev + column_plots(s, textures, x_end - 1, s.end_y as int)
        } else {
            prev
        }
    }
}

/// Every plot of a projected sprite, column by column.
pub open spec fn sprite_plots_spec(s: SpriteProjection, textures: &TextureManager, depth: Seq<u64>) -> Seq<Plot> {
    plots_upto(s, textures, depth, s.end_x as int)
}

/// Projects a sprite onto a `w` by `h` screen, as `projection_spec` states.
pub fn project_sprite(
    player: &Player,
    enemy: &Enemy,
    textures: &TextureManager,
    trig: &TrigTable,
    w: u32,
    h: u32,
) -> (r: Option<SpriteProjection>)
    requires
        player.wf(),
        enemy.wf(),
        textures.wf(),
        trig.wf(),
        1 <= w <= MAX_SCREEN_DIM,
        1 <= h <= MAX_SCREEN_DIM,
    ensures
        r == projection_spec(*player, enemy, textures, trig, w as int, h as int),
        r matches Some(s) ==> projection_ok(s, w as int, h as int),
{
    proof {
        reveal(projection_spec);
    }
    let sa = trig.atan2(enemy.y - player.y, enemy.x - player.x);
    let diff = normalize_angle(sa - player.a);
    let dx = player.x - enemy.x;
    let dy = player.y - enemy.y;
    proof {
        assert(0 <= dx * dx <= 0x4000_0000_0000_0000 && 0 <= dy * dy <= 0x4000_0000_0000_0000) by (nonlinear_arith)
            requires
                -0x8000_0000 <= dx <= 0x8000_0000,
                -0x8000_0000 <= dy <= 0x8000_0000,
        {
        }
    }
    let d = isqrt((dx * dx) as u64 + (dy * dy) as u64) as i64;
    let adiff: i64 = if diff < 0 { -diff } else { diff };
    if adiff * SPRITE_FOV_MARGIN_DEN > player.fov * SPRITE_FOV_MARGIN_NUM || d < SPRITE_NEAR || d > SPRITE_FAR {
        return None;
    }
    let size = (h as i64) * PROJECTION / d;
    if size < 1 {
        return None;
    }
    proof {
        vstd::arithmetic::div_mod::lemma_div_is_ordered_by_denominator((h as i64) * PROJECTION, 1, d as int);
        assert(-(2048 * 8192) <= diff * w <= 2048 * 8192) by (nonlinear_arith)
            requires
                -2048 <= diff <= 2048,
                1 <= w <= 8192,
        {
        }
    }
    let q = floor_div(diff * (w as i64), player.fov);
    proof {
        let n = diff * w;
        let f = player.fov as int;
        vstd::arithmetic::div_mod::lemma_fundamental_div_mod(n, f);
        vstd::arithmetic::div_mod::lemma_mod_bound(n, f);
        let r = n % f;
        assert(-(2048 * 8192) - 1 <= q <= 2048 * 8192) by (nonlinear_arith)
            requires
                n == f * q + r,
                0 <= r < f,
                1 <= f,
                -(2048 * 8192) <= n <= 2048 * 8192,
        {
        }
    }
    let sx = (w / 2) as i64 + q;
    let start_x = if sx - size / 2 < 0 {
        0
    } else {
        sx - size / 2
    };
    let start_y = if (h / 2) as i64 - size / 2 < 0 {
        0
    } else {
        (h / 2) as i64 - size / 2
    };
    let end_x = if start_x + size > w as i64 {
        w as i64
    } else {
        start_x + size
    };
    let end_y = if start_y + size > h as i64 {
        h as i64
    } else {
        start_y + size
    };
    let key = enemy.current_key();
    let (tex_w, tex_h) = match textures.get_texture(key) {
        Some(img) => (img.width as i64, img.height as i64),
        None => (DEFAULT_SPRITE_TEX, DEFAULT_SPRITE_TEX),
    };
    proof {
        if textures.has(key) {
            assert(textures.image_of(key).wf());
            assert(textures.image_of(key).width * textures.image_of(key).height >= textures.image_of(key).width) by (nonlinear_arith)
                requires
                    textures.image_of(key).height >= 1,
            {
            }
            assert(textures.image_of(key).width * textures.image_of(key).height >= textures.image_of(key).height) by (nonlinear_arith)
                requires
                    textures.image_of(key).width >= 1,
            {
            }
        }
    }
    Some(SpriteProjection { distance: d, size, start_x, end_x, start_y, end_y, key, tex_w, tex_h })
}

/// The texel that covers screen pixel `(x, y)`, as `sprite_texel` states.
pub fn sprite_texel_at(s: &SpriteProjection, textures: &TextureManager, x: i64, y: i64) -> (c: Color)
    requires
        textures.wf(),
        projection_ok(*s, MAX_SCREEN_DIM as int, MAX_SCREEN_DIM as int),
        s.start_x <= x < s.start_x + s.size,
        s.start_y <= y < s.start_y + s.size,
    ensures
        c == sprite_texel(*s, textures, x as int, y as int),
{
    proof {
        assert(0 <= (x - s.start_x) * s.tex_w <= s.size * s.tex_w <= 8192 * 70 * 0x0100_0000) by (nonlinear_arith)
            requires
                0 <= x - s.start_x < s.size,
                1 <= s.tex_w <= 0x0100_0000,
                s.size <= 8192 * 70,
        {
        }
        assert(0 <= (y - s.start_y) * s.tex_h <= s.size * s.tex_h <= 8192 * 70 * 0x0100_0000) by (nonlinear_arith)
            requires
                0 <= y - s.start_y < s.size,
                1 <= s.tex_h <= 0x0100_0000,
                s.size <= 8192 * 70,
        {
        }
        vstd::arithmetic::div_mod::lemma_div_pos_is_pos((x - s.start_x) * s.tex_w, s.size as int);
        vstd::arithmetic::div_mod::lemma_div_pos_is_pos((y - s.start_y) * s.tex_h, s.size as int);
    }
    let cx = (x - s.start_x) * s.tex_w / s.size;
    let cy = (y - s.start_y) * s.tex_h / s.size;
    let tx = if cx > s.tex_w - 1 {
        s.tex_w - 1
    } else {
        cx
    };
    let ty = if cy > s.tex_h - 1 {
        s.tex_h - 1
    } else {
        cy
    };
    textures.get_pixel_color(s.key, tx as u32, ty as u32)
}

/// Every plot of a projected sprite against a depth buffer, as `sprite_plots_spec` states:
/// columns where a wall is nearer are skipped, transparent texels are not plotted.
pub fn sprite_plots(s: &SpriteProjection, textures: &TextureManager, depth_buffer: &Vec<u64>) -> (r: Vec<Plot>)
    requires
        textures.wf(),
        projection_ok(*s, depth_buffer@.len() as int, MAX_SCREEN_DIM as int),
        depth_buffer@.len() <= MAX_SCREEN_DIM,
    ensures
        r@ == sprite_plots_spec(*s, textures, depth_buffer@),
        forall|i: int|
            0 <= i < r@.len() ==> s.start_x <= (#[trigger] r@[i]).x < s.end_x && s.start_y <= r@[i].y
                < s.end_y,
{
    let mut out: Vec<Plot> = Vec::new();
    let mut x = s.start_x;
    while x < s.end_x
        invariant
            textures.wf(),
            projection_ok(*s, depth_buffer@.len() as int, MAX_SCREEN_DIM as int),
            depth_buffer@.len() <= MAX_SCREEN_DIM,
            s.start_x <= x,
            x <= s.end_x || x == s.start_x,
            out@ == plots_upto(*s, textures, depth_buffer@, x as int),
            forall|i: int|
                0 <= i < out@.len() ==> s.start_x <= (#[trigger] out@[i]).x < x && s.start_y
                    <= out@[i].y < s.end_y,
        decreases s.end_x - x,
    {
        if (s.distance as u64) < depth_buffer[x as usize] {
            let ghost base = out@;
            let mut y = s.start_y;
            while y < s.end_y
                invariant
                    textures.wf(),
                    projection_ok(*s, depth_buffer@.len() as int, MAX_SCREEN_DIM as int),
                    depth_buffer@.len() <= MAX_SCREEN_DIM,
                    s.start_x <= x < s.end_x,
                    s.start_y <= y,
                    y <= s.end_y || y == s.start_y,
                    out@ == base + column_plots(*s, textures, x as int, y as int),
                    forall|i: int|
                        0 <= i < out@.len() ==> s.start_x <= (#[trigger] out@[i]).x <= x && s.start_y
                            <= out@[i].y < s.end_y,
                decreases s.end_y - y,
            {
                let c = sprite_texel_at(s, textures, x, y);
                if c.a != 0 {
                    out.push(Plot { x, y, color: c });
                    proof {
                        assert(out@ =~= base + column_plots(*s, textures, x as int, y + 1));
                    }
                }
                y = y + 1;
            }
            proof {
                if s.end_y < s.start_y {
                    assert(column_plots(*s, textures, x as int, s.end_y as int) =~= Seq::empty());
                    assert(column_plots(*s, textures, x as int, y as int) =~= Seq::empty());
                }
                assert(out@ == plots_upto(*s, textures, depth_buffer@, x + 1));
            }
        }
        x = x + 1;
    }
    proof {
        if s.end_x < s.start_x {
            assert(plots_upto(*s, textures, depth_buffer@, s.end_x as int) =~= Seq::empty());
        }
    }
    out
}

/// Number of texels of column `x` over rows `[start_y, y_end)` that are not fully
/// transparent.
pub open spec fn opaque_in_column(s: SpriteProjection, textures: &TextureManager, x: int, y_end: int) -> int
    decreases y_end - s.start_y,
{
    if y_end <= s.start_y {
        0
    } else {
        opaque_in_column(s, textures, x, y_end - 1) + if sprite_texel(s, textures, x, y_end - 1).a
            == 0 {
            0int
        } else {
            1int
        }
    }
}

/// Number of texels in columns `[start_x, x_end)` of a sprite's on-screen square that are
/// not fully transparent.
pub open spec fn opaque_in_footprint(s: SpriteProjection, textures: &TextureManager, x_end: int) -> int
    decreases x_end - s.start_x,
{
    if x_end <= s.start_x {
        0
    } else {
        opaque_in_footprint(s, textures, x_end - 1) + opaque_in_column(
            s,
            textures,
            x_end - 1,
            s.end_y as int,
        )
    }
}

proof fn lemma_column_plots_len(s: SpriteProjection, textures: &TextureManager, x: int, y_end: int)
    ensures
        column_plots(s, textures, x, y_end).len() == opaque_in_column(s, textures, x, y_end),
    decreases y_end - s.start_y,
{
    if y_end > s.start_y {
        lemma_column_plots_len(s, textures, x, y_end - 1);
    }
}

proof fn lemma_plots_upto_len(s: SpriteProjection, textures: &TextureManager, depth: Seq<u64>, x_end: int)
    requires
        forall|x: int| s.start_x <= x < x_end ==> s.distance < #[trigger] depth[x],
    ensures
        plots_upto(s, textures, depth, x_end).len() == opaque_in_footprint(s, textures, x_end),
    decreases x_end - s.start_x,
{
    if x_end > s.start_x {
        lemma_plots_upto_len(s, textures, depth, x_end - 1);
        lemma_column_plots_len(s, textures, x_end - 1, s.end_y as int);
        assert(s.distance < depth[x_end - 1]);
    }
}

proof fn lemma_plots_upto_empty(s: SpriteProjection, textures: &TextureManager, depth: Seq<u64>, x_end: int)
    requires
        forall|x: int| s.start_x <= x < x_end ==> s.distance >= #[trigger] depth[x],
    ensures
        plots_upto(s, textures, depth, x_end) == Seq::<Plot>::empty(),
    decreases x_end - s.start_x,
{
    if x_end > s.start_x {
        lemma_plots_upto_empty(s, textures, depth, x_end - 1);
        assert(s.distance >= depth[x_end - 1]);
    }
}

/// Full occlusion: a sprite that is not nearer than the depth recorded in any column it
/// covers gets no plot at all.
pub proof fn lemma_occluded_sprite_plots_nothing(
    s: SpriteProjection,
    textures: &TextureManager,
    depth: Seq<u64>,
)
    requires
        forall|x: int| s.start_x <= x < s.end_x ==> s.distance >= #[trigger] depth[x],
    ensures
        sprite_plots_spec(s, textures, depth).len() == 0,
{
    lemma_plots_upto_empty(s, textures, depth, s.end_x as int);
}

/// A sprite nearer than the depth recorded in every column it covers gets exactly one
/// plot per texel of its on-screen square that is not fully transparent.
pub proof fn lemma_visible_sprite_plot_count(
    s: SpriteProjection,
    textures: &TextureManager,
    depth: Seq<u64>,
)
    requires
        forall|x: int| s.start_x <= x < s.end_x ==> s.distance < #[trigger] depth[x],
    ensures
        sprite_plots_spec(s, textures, depth).len() == opaque_in_footprint(s, textures, s.end_x as int),
{
    lemma_plots_upto_len(s, textures, depth, s.end_x as int);
}

/// What one sprite plots in a frame: nothing where it does not project.
pub open spec fn enemy_plots(
    p: Player,
    e: &Enemy,
    textures: &TextureManager,
    trig: &TrigTable,
    depth: Seq<u64>,
    h: int,
) -> Seq<Plot> {
    match projection_spec(p, e, textures, trig, depth.len() as int, h) {
        Some(s) => sprite_plots_spec(s, textures, depth),
        None => Seq::empty(),
    }
}

/// Draws one enemy as a billboard sprite, depth-tested against the walls.
pub fn draw_sprite(
    framebuffer: &mut Framebuffer,
    player: &Player,
    enemy: &Enemy,
    texture_manager: &TextureManager,
    depth_buffer: &Vec<u64>,
    trig: &TrigTable,
)
    requires
        old(framebuffer).wf(),
        depth_buffer@.len() == old(framebuffer).width,
        player.wf(),
        enemy.wf(),
        texture_manager.wf(),
        trig.wf(),
    ensures
        final(framebuffer).wf(),
        final(framebuffer).width == old(framebuffer).width,
        final(framebuffer).height == old(framebuffer).height,
        final(framebuffer).background_color == old(framebuffer).background_color,
        final(framebuffer).overlays@ == old(framebuffer).overlays@,
        final(framebuffer).circle_overlays@ == old(framebuffer).circle_overlays@,
        final(framebuffer).health_to_draw == old(framebuffer).health_to_draw,
        final(framebuffer).pixel_data@ == paint(
            old(framebuffer).pixel_data@,
            old(framebuffer).width as int,
            enemy_plots(*player, enemy, texture_manager, trig, depth_buffer@, old(framebuffer).height as int),
        ),
{
    let proj = project_sprite(player, enemy, texture_manager, trig, framebuffer.width, framebuffer.height);
    match proj {
        Some(s) => {
            let plots = sprite_plots(&s, texture_manager, depth_buffer);
            framebuffer.draw_plots(&plots);
        },
        None => {},
    }
}

/// The pixels after the sprites of the first `k` enemies are drawn, in order.
pub open spec fn paint_enemies(
    px: Seq<Color>,
    p: Player,
    enemies: Seq<Enemy>,
    textures: &TextureManager,
    trig: &TrigTable,
    depth: Seq<u64>,
    w: int,
    h: int,
    k: int,
) -> Seq<Color>
    decreases k,
{
    if k <= 0 {
        px
    } else {
        paint(
            paint_enemies(px, p, enemies, textures, trig, depth, w, h, k - 1),
            w,
            enemy_plots(p, &enemies[k - 1], textures, trig, depth, h),
        )
    }
}

/// Draws every enemy's sprite, in order, depth-tested against the walls.
pub fn render_enemies(
    framebuffer: &mut Framebuffer,
    player: &Player,
    texture_cache: &TextureManager,
    depth_buffer: &Vec<u64>,
    enemies: &Vec<Enemy>,
    trig: &TrigTable,
)
    requires
        old(framebuffer).wf(),
        depth_buffer@.len() == old(framebuffer).width,
        player.wf(),
        forall|i: int| 0 <= i < enemies@.len() ==> (#[trigger] enemies@[i]).wf(),
        texture_cache.wf(),
        trig.wf(),
    ensures
        final(framebuffer).wf(),
        final(framebuffer).width == old(framebuffer).width,
        final(framebuffer).height == old(framebuffer).height,
        final(framebuffer).background_color == old(framebuffer).background_color,
        final(framebuffer).overlays@ == old(framebuffer).overlays@,
        final(framebuffer).circle_overlays@ == old(framebuffer).circle_overlays@,
        final(framebuffer).health_to_draw == old(framebuffer).health_to_draw,
        final(framebuffer).pixel_data@ == paint_enemies(
            old(framebuffer).pixel_data@,
            *player,
            enemies@,
            texture_cache,
            trig,
            depth_buffer@,
            old(framebuffer).width as int,
            old(framebuffer).height as int,
            enemies@.len() as int,
        ),
{
    let mut k: usize = 0;
    while k < enemies.len()
        invariant
            framebuffer.wf(),
            depth_buffer@.len() == framebuffer.width,
            player.wf(),
            forall|i: int| 0 <= i < enemies@.len() ==> (#[trigger] enemies@[i]).wf(),
            texture_cache.wf(),
            trig.wf(),
            0 <= k <= enemies@.len(),
            framebuffer.width == old(framebuffer).width,
            framebuffer.height == old(framebuffer).height,
            framebuffer.background_color == old(framebuffer).background_color,
            framebuffer.overlays@ == old(framebuffer).overlays@,
            framebuffer.circle_overlays@ == old(framebuffer).circle_overlays@,
            framebuffer.health_to_draw == old(framebuffer).health_to_draw,
            framebuffer.pixel_data@ == paint_enemies(
                old(framebuffer).pixel_data@,
                *player,
                enemies@,
                texture_cache,
                trig,
                depth_buffer@,
                old(framebuffer).width as int,
                old(framebuffer).height as int,
                k as int,
            ),
        decreases enemies.len() - k,
    {
        draw_sprite(framebuffer, player, &enemies[k], texture_cache, depth_buffer, trig);
        k = k + 1;
    }
}

} // verus!
