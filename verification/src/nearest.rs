//! Why the hit that a scene returns is the nearest one.
//!
//! A list asks each member for a hit in a window that shrinks as hits are
//! found. The proofs here show that this finds what a search of every member
//! in the full window would find: a hit that no member's hit is nearer than,
//! taken from the first member that has it.

use crate::fixed::{lemma_quotient_is_ordered, lemma_sqrt_is_not_negative, Fixed, ONE_RAW};
use crate::hittable::{in_window, HitRecord, Hittable};
use crate::hittable_list::HittableList;
use crate::ray::Ray;
use crate::sphere::Sphere;
use crate::vec3::raw_dot;
use vstd::prelude::*;

verus! {

/// The hit, if its parameter is at most `limit`.
pub open spec fn up_to(hit: Option<HitRecord>, limit: Fixed) -> Option<HitRecord> {
    match hit {
        Some(rec) => if rec.t.raw <= limit.raw {
            hit
        } else {
            None
        },
        None => None,
    }
}

/// Whether the hit, if there is one, has its parameter in the window.
pub open spec fn within_window(hit: Option<HitRecord>, t_min: Fixed, t_max: Fixed) -> bool {
    hit matches Some(rec) ==> in_window(rec.t, t_min, t_max)
}

/// The smaller root of a sphere is at most the larger one.
pub proof fn lemma_sphere_roots_ordered(s: Sphere, r: Ray)
    requires
        s.has_roots(r),
    ensures
        s.root(r, false).raw <= s.root(r, true).raw,
{
    let a = s.quad_a(r);
    assert(raw_dot(r.dir, r.dir) >= 0) by (nonlinear_arith)
        requires
            raw_dot(r.dir, r.dir) == r.dir.x.raw * r.dir.x.raw + r.dir.y.raw * r.dir.y.raw
                + r.dir.z.raw * r.dir.z.raw,
    ;
    assert(a.raw > 0);
    let sqrtd = s.discriminant(r).sqrt_spec();
    lemma_sqrt_is_not_negative(s.discriminant(r));
    let low = s.half_b(r).negated().minus(sqrtd);
    let high = s.half_b(r).negated().plus(sqrtd);
    assert(low.raw <= high.raw);
    assert(low.raw * ONE_RAW <= high.raw * ONE_RAW);
    lemma_quotient_is_ordered(low.raw * ONE_RAW, high.raw * ONE_RAW, a.raw as int);
}

/// A sphere in a smaller window: the hit of the larger window, if its
/// parameter is in the smaller one.
pub proof fn lemma_sphere_window(s: Sphere, r: Ray, t_min: Fixed, small: Fixed, large: Fixed)
    requires
        small.raw <= large.raw,
    ensures
        s.hit_spec(r, t_min, small) == up_to(s.hit_spec(r, t_min, large), small),
        within_window(s.hit_spec(r, t_min, large), t_min, large),
{
    if r.dir.largest() <= ONE_RAW {
        if s.solvable(r) {
            lemma_sphere_parameters_ordered(s, r);
        }
    } else if s.has_roots(r.shortened()) {
        lemma_sphere_long_parameters_ordered(s, r);
    }
}

/// The smaller root of a sphere, as a parameter of a long ray as given, is
/// at most the larger one.
pub proof fn lemma_sphere_long_parameters_ordered(s: Sphere, r: Ray)
    requires
        s.has_roots(r.shortened()),
    ensures
        s.long_parameter(r, false).raw <= s.long_parameter(r, true).raw,
{
    crate::vec3::lemma_shortened(r.dir, 1);
    lemma_sphere_roots_ordered(s, r.shortened());
    let f = r.dir.shortening();
    let (low, high) = (s.root(r.shortened(), false).raw, s.root(r.shortened(), true).raw);
    lemma_quotient_is_ordered(low as int, high as int, f);
    crate::sphere::lemma_scaled_down(s.root(r.shortened(), false), f);
    crate::sphere::lemma_scaled_down(s.root(r.shortened(), true), f);
}

/// The smaller root of a sphere, as a parameter of the ray as given, is at
/// most the larger one.
pub proof fn lemma_sphere_parameters_ordered(s: Sphere, r: Ray)
    requires
        s.solvable(r),
    ensures
        s.root(r.lengthened(), false).raw * r.dir.lengthening() <= s.root(
            r.lengthened(),
            true,
        ).raw * r.dir.lengthening(),
        r.dir.lengthening() >= 1,
{
    s.lemma_lengthened_has_length(r);
    crate::vec3::lemma_lengthened(r.dir, 1);
    lemma_sphere_roots_ordered(s, r.lengthened());
    let f = r.dir.lengthening();
    let (low, high) = (s.root(r.lengthened(), false).raw, s.root(r.lengthened(), true).raw);
    assert(low * f <= high * f) by (nonlinear_arith)
        requires
            low <= high,
            f >= 1,
    ;
}

/// The state of a search in the window up to `limit`, beside that of a
/// search in a larger window: what the larger search has found so far is
/// what the smaller has found, if its parameter is at most `limit`.
pub open spec fn searches_agree(
    limit: Fixed,
    small_closest: Fixed,
    small_best: Option<HitRecord>,
    large_closest: Fixed,
    large_best: Option<HitRecord>,
) -> bool {
    &&& small_best == up_to(large_best, limit)
    &&& small_closest.raw <= large_closest.raw
    &&& small_closest.raw <= limit.raw
    &&& limit.raw <= large_closest.raw || large_best is Some
    &&& large_best matches Some(rec) ==> rec.t == large_closest
    &&& small_best matches Some(rec) ==> rec.t == small_closest
    &&& small_best is None ==> small_closest == limit
}

/// Anything in the scene in a smaller window: the hit of the larger window,
/// if its parameter is in the smaller one.
///
/// So a hit is lost to a smaller window only by lying beyond it, and the
/// hit that a window gives does not depend on how far the window reaches
/// beyond it.
pub proof fn lemma_hit_window(world: Hittable, r: Ray, t_min: Fixed, small: Fixed, large: Fixed)
    requires
        small.raw <= large.raw,
    ensures
        world.hit_spec(r, t_min, small) == up_to(world.hit_spec(r, t_min, large), small),
        within_window(world.hit_spec(r, t_min, large), t_min, large),
    decreases world, 0nat, 0nat,
{
    match world {
        Hittable::Sphere(s) => {
            lemma_sphere_window(s, r, t_min, small, large);
        },
        Hittable::List(l) => {
            lemma_list_searches(l, r, t_min, small, small, None, large, None, large, 0);
        },
    }
}

/// Two searches of a list from member `i` on, one in a window up to
/// `limit` and one in a larger window up to `top`, whose states agree, end
/// in agreement.
proof fn lemma_list_searches(
    l: HittableList,
    r: Ray,
    t_min: Fixed,
    limit: Fixed,
    small_closest: Fixed,
    small_best: Option<HitRecord>,
    large_closest: Fixed,
    large_best: Option<HitRecord>,
    top: Fixed,
    i: int,
)
    requires
        0 <= i <= l.objects.len(),
        searches_agree(limit, small_closest, small_best, large_closest, large_best),
        large_closest.raw <= top.raw,
        within_window(large_best, t_min, top),
    ensures
        l.hit_from(r, t_min, small_closest, small_best, i) == up_to(
            l.hit_from(r, t_min, large_closest, large_best, i),
            limit,
        ),
        within_window(l.hit_from(r, t_min, large_closest, large_best, i), t_min, top),
    decreases l, 1nat, l.objects.len() - i,
{
    if i < l.objects.len() {
        let member = l.objects[i];
        lemma_hit_window(member, r, t_min, small_closest, large_closest);
        let in_small = member.hit_spec(r, t_min, small_closest);
        let in_large = member.hit_spec(r, t_min, large_closest);
        lemma_hit_window(member, r, t_min, small_closest, small_closest);
        let (next_small_closest, next_small_best) = match in_small {
            Some(rec) => if small_best is None || rec.t.raw < small_closest.raw {
                (rec.t, Some(rec))
            } else {
                (small_closest, small_best)
            },
            None => (small_closest, small_best),
        };
        let (next_large_closest, next_large_best) = match in_large {
            Some(rec) => if large_best is None || rec.t.raw < large_closest.raw {
                (rec.t, Some(rec))
            } else {
                (large_closest, large_best)
            },
            None => (large_closest, large_best),
        };
        assert(searches_agree(
            limit,
            next_small_closest,
            next_small_best,
            next_large_closest,
            next_large_best,
        ));
        lemma_list_searches(
            l,
            r,
            t_min,
            limit,
            next_small_closest,
            next_small_best,
            next_large_closest,
            next_large_best,
            top,
            i + 1,
        );
    }
}

/// Whether `hit` is the nearest hit among the first `count` members of the
/// list, each asked in the full window, and comes from member `j`, the
/// first that has it.
///
/// No hit means that none of these members is hit. A hit is the hit of
/// member `j`; no member's hit has a smaller parameter, and the hits of the
/// members before `j` have larger ones.
pub open spec fn is_first_nearest(
    l: HittableList,
    r: Ray,
    t_min: Fixed,
    t_max: Fixed,
    hit: Option<HitRecord>,
    count: int,
    j: int,
) -> bool {
    match hit {
        None => forall|k: int|
            0 <= k < count ==> (#[trigger] l.objects[k].hit_spec(r, t_min, t_max)) is None,
        Some(x) => {
            &&& 0 <= j < count
            &&& l.objects[j].hit_spec(r, t_min, t_max) == hit
            &&& forall|k: int|
                0 <= k < count ==> ((#[trigger] l.objects[k].hit_spec(r, t_min, t_max)) matches Some(
                    y,
                ) ==> x.t.raw <= y.t.raw && (k < j ==> x.t.raw < y.t.raw))
        },
    }
}

/// The search of a list from member `i` on, where `best` is the first
/// nearest hit of the members before `i`, ends with the first nearest hit
/// of all members.
proof fn lemma_search_finds_first_nearest(
    l: HittableList,
    r: Ray,
    t_min: Fixed,
    t_max: Fixed,
    closest: Fixed,
    best: Option<HitRecord>,
    i: int,
    j: int,
) -> (found: int)
    requires
        0 <= i <= l.objects.len(),
        is_first_nearest(l, r, t_min, t_max, best, i, j),
        best is None ==> closest == t_max,
        best matches Some(b) ==> b.t == closest,
    ensures
        is_first_nearest(
            l,
            r,
            t_min,
            t_max,
            l.hit_from(r, t_min, closest, best, i),
            l.objects.len() as int,
            found,
        ),
    decreases l.objects.len() - i,
{
    if i < l.objects.len() {
        let member = l.objects[i];
        let full = member.hit_spec(r, t_min, t_max);
        if best is Some {
            lemma_hit_window(l.objects[j], r, t_min, t_max, t_max);
        }
        assert(closest.raw <= t_max.raw);
        lemma_hit_window(member, r, t_min, closest, t_max);
        let shrunk = member.hit_spec(r, t_min, closest);
        assert(shrunk == up_to(full, closest));
        let (next_closest, next_best, next_j) = match shrunk {
            Some(rec) => if best is None || rec.t.raw < closest.raw {
                (rec.t, Some(rec), i)
            } else {
                (closest, best, j)
            },
            None => (closest, best, j),
        };
        assert(is_first_nearest(l, r, t_min, t_max, next_best, i + 1, next_j)) by {
            match next_best {
                None => {
                    assert forall|k: int| 0 <= k < i + 1 implies (#[trigger] l.objects[k].hit_spec(
                        r,
                        t_min,
                        t_max,
                    )) is None by {
                        if k < i {
                            assert(l.objects[k].hit_spec(r, t_min, t_max) is None);
                        }
                    }
                },
                Some(x) => {
                    assert forall|k: int| 0 <= k < i + 1 implies ((#[trigger] l.objects[k].hit_spec(
                        r,
                        t_min,
                        t_max,
                    )) matches Some(y) ==> x.t.raw <= y.t.raw && (k < next_j ==> x.t.raw
                        < y.t.raw)) by {
                        if k < i {
                            if best is Some {
                                let b = best.unwrap();
                                assert(l.objects[k].hit_spec(r, t_min, t_max) matches Some(y)
                                    ==> b.t.raw <= y.t.raw && (k < j ==> b.t.raw < y.t.raw));
                            } else {
                                assert(l.objects[k].hit_spec(r, t_min, t_max) is None);
                            }
                        }
                    }
                },
            }
        }
        lemma_search_finds_first_nearest(l, r, t_min, t_max, next_closest, next_best, i + 1, next_j)
    } else {
        j
    }
}

/// What a list returns is the nearest hit of its members, taken from the
/// first member that has it.
///
/// With every member asked in the full window: the list has no hit exactly
/// if no member has one; otherwise it returns the hit of the member `j`
/// that the proof names, no member's hit has a smaller parameter, and the
/// hits of the members before `j` have larger ones. So the parameter of
/// the hit does not depend on the order of the members, and of two members
/// with the same nearest parameter the earlier one gives the record.
pub proof fn lemma_list_hit_is_first_nearest(l: HittableList, r: Ray, t_min: Fixed, t_max: Fixed)
    -> (j: int)
    ensures
        is_first_nearest(
            l,
            r,
            t_min,
            t_max,
            l.hit_spec(r, t_min, t_max),
            l.objects.len() as int,
            j,
        ),
{
    lemma_search_finds_first_nearest(l, r, t_min, t_max, t_max, None, 0, 0)
}

} // verus!
