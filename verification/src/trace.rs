//! The recursive radiance estimator: intersection, scattering, and the sky
//! gradient fallback, with attenuation compounding along the path up to a
//! fixed depth ceiling.

use vstd::prelude::*;
use rand::rngs::StdRng;

verus! {

use crate::SCALE;
use crate::fixed::{fmul, fx_mul, lemma_fmul_unit_range, lemma_tdiv_zero,
    lemma_tdiv_mult_exact};
use crate::geometry::{
    Vec3, V3, Ray, RayModel, v3_add, v3_mul, v3_scale, v3_one, v3_zero, unit3, ray_wf,
    ray_in_bounds, lemma_unit3_bounded,
};
use crate::hitable::{Hitable, Scene, SphereModel, scene_hit_model, lemma_scene_hit_facts};
use crate::material::{
    scatter, scatter_model, albedo_wf, draw_wf, DrawModel, lemma_zero_draw_wf,
};

/// Lower intersection bound: about 0.001, keeping a bounced ray from
/// re-intersecting the surface it just left.
pub const EPSILON: i64 = 4294967;

/// Upper intersection bound: the farthest the estimator looks, standing in
/// for an unbounded search.
pub const T_FAR: i64 = 0x800_0000_0000;

/// Recursion ceiling of the radiance estimator.
pub const MAX_DEPTH: u8 = 50;

/// One half, in fixed point.
pub const HALF: i64 = 0x8000_0000;

/// The zenith color of the sky gradient: `(0.5, 0.7, 1.0)`, with the green
/// channel rounded down to the fixed-point grid.
pub const SKY_ZENITH_R: i64 = 0x8000_0000;

pub const SKY_ZENITH_G: i64 = 3006477107;

pub const SKY_ZENITH_B: i64 = 0x1_0000_0000;

pub open spec fn sky_zenith3() -> V3 {
    V3 { x: SKY_ZENITH_R as int, y: SKY_ZENITH_G as int, z: SKY_ZENITH_B as int }
}

/// The sky gradient's blend parameter: `0.5 * (y + 1)` of the unit direction.
pub open spec fn sky_t(u: V3) -> int {
    fmul(HALF as int, u.y + SCALE)
}

/// The sky gradient: white at the horizon blending to blue at the zenith,
/// keyed on the unit direction's vertical component.
pub open spec fn sky_color3(u: V3) -> V3 {
    v3_add(v3_scale(v3_one(), SCALE - sky_t(u)), v3_scale(sky_zenith3(), sky_t(u)))
}

/// The sky gradient for a ray that escapes the scene, exactly `sky_color3`
/// of the normalized direction; every channel stays within `[0, 1]`.
pub fn sky(ray: &Ray) -> (c: Vec3)
    requires
        ray_wf(ray@),
    ensures
        c@ == sky_color3(unit3(ray@.direction)),
        albedo_wf(c@),
{
    proof {
        lemma_unit3_bounded(ray@.direction);
    }
    let unit_direction = ray.direction().unit_vector();
    proof {
        lemma_sky_t_range(unit_direction@);
    }
    let t = fx_mul(HALF, unit_direction.y + SCALE);
    proof {
        lemma_sky_mix_range(unit_direction@);
    }
    let white = Vec3::one().scale(SCALE - t);
    let zenith = Vec3::new(SKY_ZENITH_R, SKY_ZENITH_G, SKY_ZENITH_B).scale(t);
    white.add(zenith)
}

/// The blend parameter stays within `[0, 1]` for a unit direction.
proof fn lemma_sky_t_range(u: V3)
    requires
        -SCALE <= u.y <= SCALE,
    ensures
        0 <= sky_t(u) <= SCALE,
{
    lemma_fmul_unit_range(HALF as int, u.y + SCALE);
    crate::fixed::lemma_fmul_bound(HALF as int, HALF as int, u.y + SCALE, 2 * SCALE);
    assert((HALF as int) * (2 * SCALE) == SCALE * SCALE) by (nonlinear_arith)
        requires HALF == 0x8000_0000 && SCALE == 0x1_0000_0000;
    lemma_tdiv_mult_exact(SCALE as int, SCALE as int);
}

/// Both halves of the sky blend stay within their weights, so the mix stays
/// within `[0, 1]` per channel.
proof fn lemma_sky_mix_range(u: V3)
    requires
        -SCALE <= u.y <= SCALE,
    ensures
        ({
            let t = sky_t(u);
            let white = v3_scale(v3_one(), SCALE - t);
            let zenith = v3_scale(sky_zenith3(), t);
            &&& white.x == SCALE - t && white.y == SCALE - t && white.z == SCALE - t
            &&& 0 <= zenith.x <= t && 0 <= zenith.y <= t && 0 <= zenith.z <= t
            &&& albedo_wf(v3_add(white, zenith))
        }),
{
    lemma_sky_t_range(u);
    let t = sky_t(u);
    lemma_tdiv_mult_exact(SCALE - t, SCALE as int);
    assert((SCALE as int) * (SCALE - t) == (SCALE - t) * SCALE) by (nonlinear_arith);
    lemma_fmul_unit_range(SKY_ZENITH_R as int, t);
    lemma_fmul_unit_range(SKY_ZENITH_G as int, t);
    lemma_fmul_unit_range(SKY_ZENITH_B as int, t);
}

/// How many bounces of randomness a path starting at `depth` may consume.
pub open spec fn draw_budget(depth: int) -> nat {
    if depth < MAX_DEPTH {
        (MAX_DEPTH - depth) as nat
    } else {
        0
    }
}

pub open spec fn all_draws_wf(draws: Seq<DrawModel>) -> bool {
    forall|i: int| 0 <= i < draws.len() ==> draw_wf(#[trigger] draws[i])
}

/// The radiance a ray gathers, one entry of `draws` per bounce: the sky
/// gradient on a miss; black at the depth ceiling, on absorption, or on a
/// scattered ray that leaves the machine bounds; otherwise the scatter
/// model's attenuation multiplied into the scattered ray's radiance.
pub open spec fn radiance3(
    spheres: Seq<SphereModel>,
    r: RayModel,
    depth: int,
    draws: Seq<DrawModel>,
) -> V3
    decreases MAX_DEPTH - depth,
{
    match scene_hit_model(spheres, r, EPSILON as int, T_FAR as int) {
        Option::Some(h) => {
            if depth < MAX_DEPTH && draws.len() > 0 {
                match scatter_model(h.material, r, h, draws[0]) {
                    Option::Some(sm) => {
                        if ray_wf(sm.scattered) {
                            v3_mul(
                                sm.attenuation,
                                radiance3(spheres, sm.scattered, depth + 1, draws.drop_first()),
                            )
                        } else {
                            v3_zero()
                        }
                    },
                    Option::None => v3_zero(),
                }
            } else {
                v3_zero()
            }
        },
        Option::None => sky_color3(unit3(r.direction)),
    }
}

/// A run of draws that sample nothing: enough to feed `radiance3` wherever
/// the draws do not matter.
pub open spec fn idle_draws(n: nat) -> Seq<DrawModel> {
    Seq::new(n, |i: int| DrawModel { sample: v3_zero(), coin: 0 })
}

proof fn lemma_idle_draws_wf(n: nat)
    ensures
        idle_draws(n).len() == n,
        all_draws_wf(idle_draws(n)),
{
    lemma_zero_draw_wf(0);
}

/// The recursive radiance estimator. Returns a color with every channel in
/// `[0, 1]`; a ray that misses the scene gets exactly the sky gradient; a
/// hit at or beyond the depth ceiling returns exactly black; and in every
/// case the result is `radiance3` of the scene, the ray, and the run of
/// well-formed draws that was made.
pub fn color(ray: &Ray, world: &Scene, depth: u8, rng: &mut StdRng) -> (c: Vec3)
    requires
        world.wf(),
        ray_wf(ray@),
    ensures
        albedo_wf(c@),
        scene_hit_model(world@, ray@, EPSILON as int, T_FAR as int) is None ==> c@ == sky_color3(
            unit3(ray@.direction),
        ),
        scene_hit_model(world@, ray@, EPSILON as int, T_FAR as int) is Some && depth >= MAX_DEPTH
            ==> c@ == v3_zero(),
        exists|draws: Seq<DrawModel>|
            {
                &&& #[trigger] draws.len() == draw_budget(depth as int)
                &&& all_draws_wf(draws)
                &&& c@ == radiance3(world@, ray@, depth as int, draws)
            },
    decreases MAX_DEPTH - depth,
{
    match world.hit(ray, EPSILON, T_FAR) {
        Option::Some(rec) => {
            if depth < MAX_DEPTH {
                proof {
                    lemma_scene_hit_facts(
                        world@,
                        world@.len(),
                        ray@,
                        EPSILON as int,
                        T_FAR as int,
                    );
                }
                match scatter(rec.material, ray, &rec, rng) {
                    Option::Some((attenuation, scattered)) => {
                        if ray_in_bounds(&scattered) {
                            let rest = color(&scattered, world, depth + 1, rng);
                            proof {
                                lemma_fmul_unit_range(attenuation@.x, rest@.x);
                                lemma_fmul_unit_range(attenuation@.y, rest@.y);
                                lemma_fmul_unit_range(attenuation@.z, rest@.z);
                            }
                            let c = attenuation.mul(rest);
                            proof {
                                let d0 = choose|d: DrawModel|
                                    #[trigger] draw_wf(d) && crate::material::scatter_matches(
                                        Some((attenuation, scattered)),
                                        scatter_model(rec.material, ray@, rec@, d),
                                    );
                                let tail = choose|draws: Seq<DrawModel>|
                                    {
                                        &&& #[trigger] draws.len() == draw_budget(depth + 1)
                                        &&& all_draws_wf(draws)
                                        &&& rest@ == radiance3(
                                            world@,
                                            scattered@,
                                            depth + 1,
                                            draws,
                                        )
                                    };
                                let draws = seq![d0] + tail;
                                assert(draws.drop_first() =~= tail);
                                assert(all_draws_wf(draws)) by {
                                    assert forall|i: int| 0 <= i < draws.len() implies draw_wf(
                                        #[trigger] draws[i],
                                    ) by {
                                        if i > 0 {
                                            assert(draws[i] == tail[i - 1]);
                                        }
                                    }
                                }
                                assert(c@ == radiance3(world@, ray@, depth as int, draws));
                                assert(draws.len() == draw_budget(depth as int));
                            }
                            c
                        } else {
                            let c = Vec3::zero();
                            proof {
                                lemma_draws_for_dead_bounce(
                                    world@,
                                    ray@,
                                    depth as int,
                                    Some((attenuation, scattered)),
                                    rec@,
                                );
                            }
                            c
                        }
                    },
                    Option::None => {
                        let c = Vec3::zero();
                        proof {
                            lemma_draws_for_dead_bounce(
                                world@,
                                ray@,
                                depth as int,
                                None,
                                rec@,
                            );
                        }
                        c
                    },
                }
            } else {
                let c = Vec3::zero();
                proof {
                    lemma_idle_draws_wf(0);
                    assert(idle_draws(0).len() == draw_budget(depth as int));
                    assert(c@ == radiance3(world@, ray@, depth as int, idle_draws(0)));
                }
                c
            }
        },
        Option::None => {
            let c = sky(ray);
            proof {
                let n = draw_budget(depth as int);
                lemma_idle_draws_wf(n);
                assert(c@ == radiance3(world@, ray@, depth as int, idle_draws(n)));
            }
            c
        },
    }
}

/// Builds the draw run for a bounce that went dark: the draw that was made
/// (whose scatter outcome is absorption or an out-of-bounds ray), padded
/// with idle draws to the budget.
proof fn lemma_draws_for_dead_bounce(
    spheres: Seq<SphereModel>,
    r: RayModel,
    depth: int,
    res: Option<(Vec3, Ray)>,
    rec: crate::hitable::HitModel,
)
    requires
        0 <= depth < MAX_DEPTH,
        scene_hit_model(spheres, r, EPSILON as int, T_FAR as int) == Option::Some(rec),
        exists|d: DrawModel|
            #[trigger] draw_wf(d) && crate::material::scatter_matches(
                res,
                scatter_model(rec.material, r, rec, d),
            ),
        match res {
            Option::Some(pair) => !ray_wf(pair.1@),
            Option::None => true,
        },
    ensures
        exists|draws: Seq<DrawModel>|
            {
                &&& #[trigger] draws.len() == draw_budget(depth)
                &&& all_draws_wf(draws)
                &&& v3_zero() == radiance3(spheres, r, depth, draws)
            },
{
    let d0 = choose|d: DrawModel|
        #[trigger] draw_wf(d) && crate::material::scatter_matches(
            res,
            scatter_model(rec.material, r, rec, d),
        );
    let n = (draw_budget(depth) - 1) as nat;
    lemma_idle_draws_wf(n);
    let draws = seq![d0] + idle_draws(n);
    assert(all_draws_wf(draws)) by {
        assert forall|i: int| 0 <= i < draws.len() implies draw_wf(#[trigger] draws[i]) by {
            if i > 0 {
                assert(draws[i] == idle_draws(n)[i - 1]);
            }
        }
    }
    assert(v3_zero() == radiance3(spheres, r, depth, draws));
    assert(draws.len() == draw_budget(depth));
}

/// Sky gradient boundary values: a unit direction pointing straight up
/// yields exactly the zenith color, and straight down exactly the horizon
/// white.
pub proof fn lemma_sky_boundary(u: V3)
    ensures
        u.y == SCALE ==> sky_color3(u) == sky_zenith3(),
        u.y == -SCALE ==> sky_color3(u) == v3_one(),
{
    if u.y == SCALE {
        assert(sky_t(u) == SCALE) by {
            assert((HALF as int) * (SCALE + SCALE) == (SCALE as int) * SCALE) by (nonlinear_arith)
                requires HALF == 0x8000_0000 && SCALE == 0x1_0000_0000;
            lemma_tdiv_mult_exact(SCALE as int, SCALE as int);
        }
        lemma_scale_by_zero_and_one(v3_one(), sky_zenith3());
    }
    if u.y == -SCALE {
        assert(sky_t(u) == 0) by {
            lemma_tdiv_zero(SCALE as int);
        }
        lemma_scale_by_zero_and_one(sky_zenith3(), v3_one());
    }
}

/// Scaling by zero vanishes and scaling by one is exact, so a blend at
/// either end reproduces that end exactly.
proof fn lemma_scale_by_zero_and_one(vanishing: V3, kept: V3)
    ensures
        v3_add(v3_scale(vanishing, 0), v3_scale(kept, SCALE as int)) == kept,
{
    lemma_tdiv_zero(SCALE as int);
    lemma_tdiv_mult_exact(kept.x, SCALE as int);
    lemma_tdiv_mult_exact(kept.y, SCALE as int);
    lemma_tdiv_mult_exact(kept.z, SCALE as int);
}

} // verus!
