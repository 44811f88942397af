//! Photometric-stereo reconstruction of a per-pixel surface-normal field.
//!
//! All geometry is carried in fixed-point arithmetic: a real value `r` is
//! stored as the integer `r * SCALE` (see [`arith::SCALE`]), so that every
//! operation of the estimation pipeline is exact integer arithmetic that the
//! verifier can reason about.
//!
//! The core is an alternating-least-squares estimator: starting from a
//! synthetic dome, each round fits one lighting direction per photograph
//! against the current normal field, refits every pixel's normal against the
//! new lighting directions, and reorients the field toward the camera; the
//! stabilized field is then flattened toward its boundary for a fixed number
//! of passes.

pub mod albedo_utils;
pub mod arith;
pub mod normal_utils;
pub mod radiance_map;
pub mod rotation;
pub mod solver;
pub mod vec3;

use vstd::prelude::*;

use crate::arith::SCALE;
use crate::normal_utils::{corner_flatten, corner_flatten_spec, dirs_of, field_wf,
    generate_lighting_direction, generate_normals, lums_at, reorient_normals, reorient_spec,
    seed_field_s, seed_normal_field, solve_direction_spec, EstimateError, NormalField};
use crate::radiance_map::{radiance_wf, samples_wf, RadianceMap};
use crate::vec3::{is_unit, Vec3};

verus! {

/// The lighting directions one refinement round fits against the field `s`:
/// one least-squares solve per sample (meaningful when every solve
/// succeeds).
pub open spec fn new_dirs(maps: Seq<RadianceMap>, s: Seq<Vec3>) -> Seq<Vec3> {
    Seq::new(maps.len(), |k: int| solve_direction_spec(s, maps[k].radiance@)->Ok_0)
}

/// Whether one refinement round starting from the field `s` succeeds: every
/// per-sample lighting solve and every per-pixel normal solve is well
/// posed.
pub open spec fn round_ok(maps: Seq<RadianceMap>, s: Seq<Vec3>) -> bool {
    &&& forall|k: int|
        0 <= k < maps.len() ==> (solve_direction_spec(s, (#[trigger] maps[k]).radiance@) is Ok)
    &&& forall|p: int|
        0 <= p < s.len() ==> (solve_direction_spec(new_dirs(maps, s), #[trigger] lums_at(maps, p))
            is Ok)
}

/// The field one refinement round produces from `s`: refit every pixel's
/// normal against the round's lighting directions, then reorient.
pub open spec fn round_field(maps: Seq<RadianceMap>, s: Seq<Vec3>) -> Seq<Vec3> {
    reorient_spec(
        Seq::new(
            s.len(),
            |p: int| solve_direction_spec(new_dirs(maps, s), lums_at(maps, p))->Ok_0,
        ),
    )
}

/// The field after `k` refinement rounds from the seed `s`.
pub open spec fn rounds_field(maps: Seq<RadianceMap>, s: Seq<Vec3>, k: nat) -> Seq<Vec3>
    decreases k,
{
    if k == 0 {
        s
    } else {
        round_field(maps, rounds_field(maps, s, (k - 1) as nat))
    }
}

/// Whether all of the first `k` refinement rounds succeed.
pub open spec fn rounds_all_ok(maps: Seq<RadianceMap>, s: Seq<Vec3>, k: nat) -> bool
    decreases k,
{
    if k == 0 {
        true
    } else {
        rounds_all_ok(maps, s, (k - 1) as nat) && round_ok(
            maps,
            rounds_field(maps, s, (k - 1) as nat),
        )
    }
}

/// The lighting directions left after `k` rounds: those fitted in the last
/// round, or the samples' original directions when no round ran.
pub open spec fn final_dirs(maps: Seq<RadianceMap>, s: Seq<Vec3>, k: nat) -> Seq<Vec3> {
    if k == 0 {
        dirs_of(maps)
    } else {
        new_dirs(maps, rounds_field(maps, s, (k - 1) as nat))
    }
}

/// The field after `k` boundary-flattening passes, each a corner flatten
/// followed by a reorientation.
pub open spec fn flatten_spec(s: Seq<Vec3>, w: int, h: int, k: nat) -> Seq<Vec3>
    decreases k,
{
    if k == 0 {
        s
    } else {
        reorient_spec(corner_flatten_spec(flatten_spec(s, w, h, (k - 1) as nat), w, h))
    }
}

/// A failed round keeps every longer run failed.
proof fn lemma_rounds_ok_monotone(maps: Seq<RadianceMap>, s: Seq<Vec3>, j: nat, k: nat)
    requires
        j <= k,
        !rounds_all_ok(maps, s, j),
    ensures
        !rounds_all_ok(maps, s, k),
    decreases k,
{
    if k > j {
        lemma_rounds_ok_monotone(maps, s, j, (k - 1) as nat);
    }
}

/// Reconstruct a normal field from a set of radiance samples.
///
/// Runs `rounds` alternating refinement rounds from the synthetic dome seed
/// -- each round one lighting fit per sample
/// ([`generate_lighting_direction`]), one normal fit per pixel
/// ([`generate_normals`]) and a reorientation ([`reorient_normals`]) --
/// then `flatten_passes` boundary-flattening passes ([`corner_flatten`]
/// followed by [`reorient_normals`]), and returns the final field together
/// with the samples carrying their final lighting directions. The round
/// counts are parameters, not magic numbers; they are the sole termination
/// condition. The reconstruction fails exactly when some round's
/// least-squares step is degenerate; no partial result is produced.
#[verifier::loop_isolation(false)]
pub fn generate_normal_map(
    radiance_maps: Vec<RadianceMap>,
    rounds: usize,
    flatten_passes: usize,
) -> (r: Result<(NormalField, Vec<RadianceMap>), EstimateError>)
    requires
        radiance_maps@.len() >= 1,
        samples_wf(
            radiance_maps@,
            radiance_maps@[0].width as int,
            radiance_maps@[0].height as int,
        ),
    ensures
        (r is Ok) <==> rounds_all_ok(
            radiance_maps@,
            seed_field_s(radiance_maps@[0].width as int, radiance_maps@[0].height as int),
            rounds as nat,
        ),
        r matches Ok((f, m)) ==> {
            let w = radiance_maps@[0].width as int;
            let h = radiance_maps@[0].height as int;
            let seed = seed_field_s(w, h);
            &&& field_wf(f)
            &&& f.width == radiance_maps@[0].width
            &&& f.height == radiance_maps@[0].height
            &&& f.normals@ == flatten_spec(
                rounds_field(radiance_maps@, seed, rounds as nat),
                w,
                h,
                flatten_passes as nat,
            )
            &&& m@.len() == radiance_maps@.len()
            &&& forall|k: int|
                0 <= k < m@.len() ==> (#[trigger] m@[k]).width == radiance_maps@[k].width
                    && m@[k].height == radiance_maps@[k].height && m@[k].radiance@
                    == radiance_maps@[k].radiance@ && m@[k].lighting_direction == final_dirs(
                    radiance_maps@,
                    seed,
                    rounds as nat,
                )[k] && is_unit(m@[k].lighting_direction)
        },
{
    let w = radiance_maps[0].width;
    let h = radiance_maps[0].height;
    let nm = radiance_maps.len();
    let ghost maps0 = radiance_maps@;
    let ghost seed = seed_field_s(w as int, h as int);

    let mut field = seed_normal_field(w, h);
    proof {
        assert(field.normals@ =~= seed);
    }
    let mut maps = radiance_maps;
    let mut round: usize = 0;
    while round < rounds
        invariant
            round <= rounds,
            nm == maps0.len(),
            maps@.len() == nm,
            samples_wf(maps0, w as int, h as int),
            w == maps0[0].width,
            h == maps0[0].height,
            seed == seed_field_s(w as int, h as int),
            forall|k: int|
                0 <= k < nm ==> (#[trigger] maps@[k]).width == maps0[k].width && maps@[k].height
                    == maps0[k].height && maps@[k].radiance@ == maps0[k].radiance@,
            forall|k: int| 0 <= k < nm ==> is_unit((#[trigger] maps@[k]).lighting_direction),
            forall|k: int|
                0 <= k < nm ==> (#[trigger] maps@[k]).lighting_direction == final_dirs(
                    maps0,
                    seed,
                    round as nat,
                )[k],
            field_wf(field),
            field.width == w,
            field.height == h,
            field.normals@ == rounds_field(maps0, seed, round as nat),
            rounds_all_ok(maps0, seed, round as nat),
        decreases rounds - round,
    {
        let ghost s_cur = field.normals@;

        // Fit one lighting direction per sample against the current field.
        let mut newmaps: Vec<RadianceMap> = Vec::new();
        let ghost oldmaps = maps@;
        let mut k: usize = 0;
        while k < nm
            invariant
                k <= nm,
                nm == maps0.len() == oldmaps.len(),
                round < rounds,
                seed == seed_field_s(w as int, h as int),
                s_cur == rounds_field(maps0, seed, round as nat),
                rounds_all_ok(maps0, seed, round as nat),
                maps@ =~= oldmaps.subrange(k as int, nm as int),
                samples_wf(maps0, w as int, h as int),
                w == maps0[0].width,
                h == maps0[0].height,
                forall|j: int|
                    0 <= j < nm ==> (#[trigger] oldmaps[j]).width == maps0[j].width
                        && oldmaps[j].height == maps0[j].height && oldmaps[j].radiance@
                        == maps0[j].radiance@,
                field_wf(field),
                field.normals@ == s_cur,
                field.width == w,
                field.height == h,
                newmaps@.len() == k,
                forall|j: int|
                    0 <= j < k ==> (#[trigger] newmaps@[j]).width == maps0[j].width
                        && newmaps@[j].height == maps0[j].height && newmaps@[j].radiance@
                        == maps0[j].radiance@,
                forall|j: int|
                    0 <= j < k ==> (solve_direction_spec(
                        s_cur,
                        (#[trigger] maps0[j]).radiance@,
                    ) is Ok),
                forall|j: int|
                    0 <= j < k ==> (#[trigger] newmaps@[j]).lighting_direction == (
                    solve_direction_spec(s_cur, maps0[j].radiance@)->Ok_0) && is_unit(
                        newmaps@[j].lighting_direction,
                    ),
            decreases nm - k,
        {
            proof {
                assert(oldmaps.subrange(k as int, nm as int)[0] == oldmaps[k as int]);
            }
            let m = maps.remove(0);
            proof {
                assert(m.radiance@ == maps0[k as int].radiance@);
                assert(maps@ =~= oldmaps.subrange(k as int + 1, nm as int));
                assert(radiance_wf(maps0[k as int]));
                assert(m.radiance@.len() == field.normals@.len());
            }
            match generate_lighting_direction(&field, &m.radiance) {
                Err(e) => {
                    proof {
                        assert(!(solve_direction_spec(s_cur, maps0[k as int].radiance@) is Ok));
                        assert(!round_ok(maps0, s_cur)) by {
                            assert(0 <= k < maps0.len());
                            assert(!(solve_direction_spec(
                                s_cur,
                                maps0[k as int].radiance@,
                            ) is Ok));
                        }
                        assert(!rounds_all_ok(maps0, seed, (round + 1) as nat)) by {
                            assert(rounds_field(maps0, seed, round as nat) == s_cur);
                            assert((((round + 1) as nat) - 1) as nat == round as nat);
                        }
                        lemma_rounds_ok_monotone(maps0, seed, (round + 1) as nat, rounds as nat);
                        assert(!rounds_all_ok(maps0, seed, rounds as nat));
                    }
                    return Err(e);
                },
                Ok(d) => {
                    proof {
                        assert(solve_direction_spec(s_cur, maps0[k as int].radiance@) == Ok::<
                            Vec3,
                            EstimateError,
                        >(d));
                    }
                    newmaps.push(
                        RadianceMap {
                            lighting_direction: d,
                            width: m.width,
                            height: m.height,
                            radiance: m.radiance,
                        },
                    );
                    proof {
                        assert(newmaps@[k as int].lighting_direction == d);
                    }
                },
            }
            k = k + 1;
        }
        maps = newmaps;
        proof {
            assert forall|j: int| 0 <= j < maps0.len() implies (solve_direction_spec(
                s_cur,
                (#[trigger] maps0[j]).radiance@,
            ) is Ok) by {
                assert(maps@[j].lighting_direction == (solve_direction_spec(
                    s_cur,
                    maps0[j].radiance@,
                )->Ok_0));
            }
            assert(dirs_of(maps@) =~= new_dirs(maps0, s_cur));
            assert forall|p: int| 0 <= p < (w as int) * (h as int) implies (#[trigger] lums_at(
                maps@,
                p,
            )) =~= lums_at(maps0, p) by {
                assert(forall|j: int|
                    0 <= j < nm ==> (#[trigger] maps@[j]).radiance@ == maps0[j].radiance@);
            }
            assert(samples_wf(maps@, w as int, h as int));
        }

        // Refit every pixel's normal against the new directions, then
        // reorient the whole field toward the camera.
        match generate_normals(&maps) {
            Err(e) => {
                proof {
                    let p0 = choose|p: int|
                        0 <= p < (w as int) * (h as int) && !(solve_direction_spec(
                            dirs_of(maps@),
                            lums_at(maps@, p),
                        ) is Ok);
                    assert(lums_at(maps@, p0) =~= lums_at(maps0, p0));
                    assert(!(solve_direction_spec(new_dirs(maps0, s_cur), lums_at(maps0, p0))
                        is Ok));
                    assert(!round_ok(maps0, s_cur)) by {
                        assert(0 <= p0 < s_cur.len());
                        assert(!(solve_direction_spec(new_dirs(maps0, s_cur), lums_at(maps0, p0))
                            is Ok));
                    }
                    assert(!rounds_all_ok(maps0, seed, (round + 1) as nat)) by {
                        assert(rounds_field(maps0, seed, round as nat) == s_cur);
                        assert((((round + 1) as nat) - 1) as nat == round as nat);
                    }
                    lemma_rounds_ok_monotone(maps0, seed, (round + 1) as nat, rounds as nat);
                    assert(!rounds_all_ok(maps0, seed, rounds as nat));
                }
                return Err(e);
            },
            Ok(nf) => {
                proof {
                    assert forall|p: int| 0 <= p < s_cur.len() implies (solve_direction_spec(
                        new_dirs(maps0, s_cur),
                        #[trigger] lums_at(maps0, p),
                    ) is Ok) && nf.normals@[p] == (solve_direction_spec(
                        new_dirs(maps0, s_cur),
                        lums_at(maps0, p),
                    )->Ok_0) by {
                        assert(solve_direction_spec(dirs_of(maps@), lums_at(maps@, p))
                            == Ok::<Vec3, EstimateError>(nf.normals@[p]));
                        assert(lums_at(maps@, p) =~= lums_at(maps0, p));
                    }
                    assert(round_ok(maps0, s_cur));
                }
                let reoriented = reorient_normals(&nf);
                proof {
                    assert(nf.normals@ =~= Seq::new(
                        s_cur.len(),
                        |p: int|
                            solve_direction_spec(new_dirs(maps0, s_cur), lums_at(maps0, p))->Ok_0,
                    ));
                    assert(reoriented.normals@ == round_field(maps0, s_cur));
                    assert(rounds_field(maps0, seed, (round + 1) as nat) == round_field(
                        maps0,
                        s_cur,
                    ));
                }
                field = reoriented;
            },
        }
        round = round + 1;
    }

    // Boundary flattening: corner flatten and reorient, repeatedly.
    let ghost s_rounds = field.normals@;
    let mut pass: usize = 0;
    while pass < flatten_passes
        invariant
            pass <= flatten_passes,
            field_wf(field),
            field.width == w,
            field.height == h,
            field.normals@ == flatten_spec(s_rounds, w as int, h as int, pass as nat),
            s_rounds == rounds_field(maps0, seed, rounds as nat),
            w == maps0[0].width,
            h == maps0[0].height,
            seed == seed_field_s(w as int, h as int),
        decreases flatten_passes - pass,
    {
        let flattened = corner_flatten(&field);
        field = reorient_normals(&flattened);
        pass = pass + 1;
    }
    Ok((field, maps))
}

/// The byte one normal coordinate is written out as: the unit-range value
/// mapped to `[0, 256)` by `round(c * 128 + 128)` and saturated at 255.
pub open spec fn normal_byte(c: int) -> int {
    if (c + 65792) / 512 > 255 {
        255
    } else {
        (c + 65792) / 512
    }
}

/// Encode a normal field as an RGB raster, one channel per coordinate, in
/// the row-major layout of the field.
pub fn normal_map_bytes(f: &NormalField) -> (out: Vec<u8>)
    requires
        field_wf(*f),
    ensures
        out@.len() == 3 * f.normals@.len(),
        forall|p: int|
            0 <= p < f.normals@.len() ==> #[trigger] out@[3 * p] == normal_byte(
                f.normals@[p].x as int,
            ) && out@[3 * p + 1] == normal_byte(f.normals@[p].y as int) && out@[3 * p + 2]
                == normal_byte(f.normals@[p].z as int),
{
    let n = f.normals.len();
    let mut out: Vec<u8> = Vec::new();
    let mut i: usize = 0;
    while i < n
        invariant
            i <= n,
            n == f.normals@.len(),
            field_wf(*f),
            out@.len() == 3 * i,
            forall|p: int|
                0 <= p < i ==> #[trigger] out@[3 * p] == normal_byte(f.normals@[p].x as int)
                    && out@[3 * p + 1] == normal_byte(f.normals@[p].y as int) && out@[3 * p + 2]
                    == normal_byte(f.normals@[p].z as int),
        decreases n - i,
    {
        let v = f.normals[i];
        proof {
            crate::vec3::lemma_unit_coords(f.normals@[i as int]);
        }
        let bx: u8 = coord_byte(v.x);
        let by: u8 = coord_byte(v.y);
        let bz: u8 = coord_byte(v.z);
        let ghost out0 = out@;
        out.push(bx);
        out.push(by);
        out.push(bz);
        proof {
            assert forall|p: int| 0 <= p < i as int implies (#[trigger] out@[3 * p]) == out0[3 * p]
                && out@[3 * p + 1] == out0[3 * p + 1] && out@[3 * p + 2] == out0[3 * p + 2] by {
                assert(3 * p + 2 < out0.len());
            }
            assert(out@[3 * (i as int)] == bx && out@[3 * (i as int) + 1] == by && out@[3 * (
            i as int) + 2] == bz);
        }
        i = i + 1;
    }
    out
}

/// Encode one coordinate of a unit vector as a byte.
fn coord_byte(c: i64) -> (b: u8)
    requires
        -SCALE <= c <= SCALE,
    ensures
        b == normal_byte(c as int),
{
    let q: u64 = ((c + 65792) as u64) / 512;
    if q > 255 {
        255
    } else {
        q as u8
    }
}

} // verus!
