use vstd::prelude::*;

use crate::util::{Point, Size};

verus! {

/// One placed prop: its footprint, whether it behaves as a door, and the
/// overlay cells it hides or blocks while closed.  The point lists are
/// relative to the footprint's top-left corner.
#[derive(Debug)]
pub struct PropState {
    pub location: Point,
    pub size: Size,
    pub enabled: bool,
    pub active: bool,
    pub is_door: bool,
    pub closed_invis: Vec<Point>,
    pub closed_impass: Vec<Point>,
    pub marked_for_removal: bool,
    pub hover_id: Option<u64>,
}

impl PropState {
    /// A positive footprint whose closed-door overlay points all lie
    /// within it.
    pub open spec fn wf_spec(&self) -> bool {
        &&& 1 <= self.size.width <= 0x7FFF
        &&& 1 <= self.size.height <= 0x7FFF
        &&& (forall|k: int|
            0 <= k < self.closed_invis@.len() ==> rel_point_in_size(
                #[trigger] self.closed_invis@[k],
                self.size,
            ))
        &&& (forall|k: int|
            0 <= k < self.closed_impass@.len() ==> rel_point_in_size(
                #[trigger] self.closed_impass@[k],
                self.size,
            ))
    }

    pub fn is_door(&self) -> (r: bool)
        ensures
            r == self.is_door,
    {
        self.is_door
    }

    pub fn is_active(&self) -> (r: bool)
        ensures
            r == self.active,
    {
        self.active
    }

    pub fn is_marked_for_removal(&self) -> (r: bool)
        ensures
            r == self.marked_for_removal,
    {
        self.marked_for_removal
    }

    pub fn set_enabled(&mut self, enabled: bool)
        ensures
            *final(self) == (PropState { enabled, ..*old(self) }),
    {
        self.enabled = enabled;
    }

    pub fn toggle_active(&mut self)
        ensures
            *final(self) == (PropState { active: !old(self).active, ..*old(self) }),
    {
        self.active = !self.active;
    }
}

impl Clone for PropState {
    fn clone(&self) -> (r: Self)
        ensures
            same_prop_shape(r, *self),
            r.enabled == self.enabled,
            r.active == self.active,
            r.marked_for_removal == self.marked_for_removal,
    {
        PropState {
            location: self.location,
            size: self.size,
            enabled: self.enabled,
            active: self.active,
            is_door: self.is_door,
            closed_invis: clone_points(&self.closed_invis),
            closed_impass: clone_points(&self.closed_impass),
            marked_for_removal: self.marked_for_removal,
            hover_id: self.hover_id,
        }
    }
}

/// A copy of a point list.
fn clone_points(points: &Vec<Point>) -> (r: Vec<Point>)
    ensures
        r@ == points@,
{
    let mut r: Vec<Point> = Vec::new();
    let mut i: usize = 0;
    while i < points.len()
        invariant
            i <= points@.len(),
            r@ == points@.take(i as int),
        decreases points@.len() - i,
    {
        r.push(points[i]);
        i += 1;
    }
    proof {
        assert(points@.take(points@.len() as int) =~= points@);
    }
    r
}

/// The two props agree on everything but their toggled state: same
/// footprint, door behaviour, overlay points and hover text.
pub open spec fn same_prop_shape(a: PropState, b: PropState) -> bool {
    &&& a.location == b.location
    &&& a.size == b.size
    &&& a.is_door == b.is_door
    &&& a.closed_invis@ == b.closed_invis@
    &&& a.closed_impass@ == b.closed_impass@
    &&& a.hover_id == b.hover_id
}

/// Whether a footprint-relative point lies within a footprint of the
/// given size.
pub open spec fn rel_point_in_size(p: Point, size: Size) -> bool {
    &&& 0 <= p.x < size.width
    &&& 0 <= p.y < size.height
}

/// Whether the prop's footprint covers the cell `(x, y)`.
pub open spec fn prop_covers(prop: PropState, x: int, y: int) -> bool {
    &&& prop.location.x <= x < prop.location.x + prop.size.width
    &&& prop.location.y <= y < prop.location.y + prop.size.height
}

} // verus!
