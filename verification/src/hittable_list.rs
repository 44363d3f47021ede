//! A list of things, hit as one: the nearest hit of its members.

use crate::fixed::Fixed;
use crate::hittable::{HitRecord, Hittable};
use crate::ray::Ray;
use vstd::prelude::*;

verus! {

/// The members of a scene, in the order in which they were added.
pub struct HittableList {
    pub objects: Vec<Hittable>,
}

impl HittableList {
    /// The search from member `i` on, where `closest` is the upper end of the
    /// window that is left and `best` the nearest hit found so far.
    ///
    /// Each member is asked for a hit between `t_min` and `closest`. The
    /// first hit is taken; a later one replaces it only if its parameter is
    /// smaller, so of two hits at the same parameter the earlier member's
    /// stays.
    pub open spec fn hit_from(
        self,
        r: Ray,
        t_min: Fixed,
        closest: Fixed,
        best: Option<HitRecord>,
        i: int,
    ) -> Option<HitRecord>
        decreases self, self.objects.len() - i,
    {
        if 0 <= i < self.objects.len() {
            match self.objects[i].hit_spec(r, t_min, closest) {
                Some(rec) => if best is None || rec.t.raw < closest.raw {
                    self.hit_from(r, t_min, rec.t, Some(rec), i + 1)
                } else {
                    self.hit_from(r, t_min, closest, best, i + 1)
                },
                None => self.hit_from(r, t_min, closest, best, i + 1),
            }
        } else {
            best
        }
    }

    /// What `hit` returns.
    pub open spec fn hit_spec(self, r: Ray, t_min: Fixed, t_max: Fixed) -> Option<HitRecord>
        decreases self, self.objects.len() + 1,
    {
        self.hit_from(r, t_min, t_max, None, 0)
    }

    /// The list with one member.
    pub fn new(object: Hittable) -> (l: HittableList)
        ensures
            l.objects@ == seq![object],
    {
        let mut objects: Vec<Hittable> = Vec::new();
        objects.push(object);
        HittableList { objects }
    }

    /// Removes every member.
    pub fn clear(&mut self)
        ensures
            final(self).objects@ == Seq::<Hittable>::empty(),
    {
        self.objects.clear();
    }

    /// Adds a member at the end.
    pub fn add(&mut self, object: Hittable)
        ensures
            final(self).objects@ == old(self).objects@.push(object),
    {
        self.objects.push(object);
    }

    /// The nearest hit of the ray `r` with a member, with a parameter in the
    /// window; `None` if no member is hit.
    pub fn hit(&self, r: &Ray, t_min: Fixed, t_max: Fixed) -> (hit: Option<HitRecord>)
        ensures
            hit == self.hit_spec(*r, t_min, t_max),
        decreases self,
    {
        let mut hit_anything: Option<HitRecord> = None;
        let mut closest_so_far = t_max;
        let mut i: usize = 0;
        while i < self.objects.len()
            invariant
                i <= self.objects.len(),
                self.hit_from(*r, t_min, closest_so_far, hit_anything, i as int) == self.hit_spec(
                    *r,
                    t_min,
                    t_max,
                ),
            decreases self.objects.len() - i,
        {
            if let Some(temp_rec) = self.objects[i].hit(r, t_min, closest_so_far) {
                if hit_anything.is_none() || temp_rec.t.raw < closest_so_far.raw {
                    closest_so_far = temp_rec.t;
                    hit_anything = Some(temp_rec);
                }
            }
            i += 1;
        }
        hit_anything
    }
}

impl Default for HittableList {
    /// The list without members.
    fn default() -> (l: HittableList)
        ensures
            l.objects@ == Seq::<Hittable>::empty(),
    {
        HittableList { objects: Vec::new() }
    }
}

} // verus!
