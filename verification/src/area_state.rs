use vstd::prelude::*;

use crate::entity_state::{EntityState, Faction, covers, footprints_overlap, is_threat,
    is_threat_spec, overlaps};
use crate::prop_state::{PropState, prop_covers, rel_point_in_size, same_prop_shape};
use crate::util::{Point, Size, cell_index, cell_index_exec, cell_x, cell_y,
    lemma_cell_index_bijective, lemma_grid_injective, valid_coords};

verus! {

broadcast use vstd::seq_lib::group_seq_properties;

/// The error class of spatial-index mutations: an out-of-bounds location
/// or a dangling reference.  Such failures never abort the simulation.
#[derive(Clone, Copy, Debug, PartialEq, Eq, Structural)]
pub enum AreaError {
    InvalidData,
}

/// The per-trigger state: whether it has fired, and whether it may fire.
#[derive(Clone, Copy, Debug, PartialEq, Eq, Structural)]
pub struct TriggerState {
    pub fired: bool,
    pub enabled: bool,
}

/// The outstanding redraw requirement of the visibility layer, consumed
/// exactly once by the renderer.
#[derive(Clone, Copy, Debug, PartialEq, Eq, Structural)]
pub enum PCVisRedraw {
    Full,
    Partial { delta_x: i32, delta_y: i32 },
    Not,
}

/// A rectangle of cells watched by a trigger.
#[derive(Clone, Copy, Debug, PartialEq, Eq, Structural)]
pub struct TriggerRect {
    pub location: Point,
    pub size: Size,
}

/// One trigger of the area definition: the player-enter zone it watches,
/// if any, and whether it starts out enabled.
#[derive(Clone, Copy, Debug)]
pub struct TriggerDef {
    pub rect: Option<TriggerRect>,
    pub initially_enabled: bool,
}

/// One transition zone of the area definition.
#[derive(Clone, Copy, Debug, PartialEq, Eq, Structural)]
pub struct TransitionDef {
    pub from: Point,
    pub size: Size,
}

/// Whether there is no repeated element in `s`.
pub open spec fn no_dups<A>(s: Seq<A>) -> bool {
    forall|j: int, k: int| 0 <= j < k < s.len() ==> s[j] != s[k]
}

/// The set of parallel per-cell grids of one loaded area: entity
/// occupancy, prop occupancy, surface membership, trigger and transition
/// zones, the prop visibility and passability overlays, and the
/// fog-of-war grids.  The authoritative mapping between live entities,
/// props and surfaces and the cells they occupy.
pub struct AreaState {
    width: i32,
    height: i32,
    terrain_pass: Vec<bool>,
    props: Vec<Option<PropState>>,
    entities: Vec<Option<EntityState>>,
    entity_list: Vec<usize>,
    member_vis: Vec<Vec<bool>>,
    threat_pairs: Vec<(usize, usize)>,
    surfaces: Vec<usize>,
    triggers: Vec<TriggerState>,
    prop_grid: Vec<Option<usize>>,
    entity_grid: Vec<Vec<usize>>,
    surface_grid: Vec<Vec<usize>>,
    transition_grid: Vec<Option<usize>>,
    trigger_grid: Vec<Option<usize>>,
    prop_vis_grid: Vec<bool>,
    prop_pass_grid: Vec<bool>,
    pc_vis_redraw: PCVisRedraw,
    pc_vis: Vec<bool>,
    pc_explored: Vec<bool>,
}

impl AreaState {
    pub closed spec fn spec_width(&self) -> i32 {
        self.width
    }

    pub closed spec fn spec_height(&self) -> i32 {
        self.height
    }

    /// The number of cells of the area grid.
    pub open spec fn dim(&self) -> int {
        self.spec_width() as int * self.spec_height() as int
    }

    pub closed spec fn spec_terrain(&self) -> Seq<bool> {
        self.terrain_pass@
    }

    pub closed spec fn spec_props(&self) -> Seq<Option<PropState>> {
        self.props@
    }

    pub closed spec fn spec_entities(&self) -> Seq<Option<EntityState>> {
        self.entities@
    }

    pub closed spec fn spec_entity_list(&self) -> Seq<usize> {
        self.entity_list@
    }

    pub closed spec fn spec_member_vis(&self, e: int) -> Seq<bool> {
        self.member_vis@[e]@
    }

    pub closed spec fn spec_threat_pairs(&self) -> Seq<(usize, usize)> {
        self.threat_pairs@
    }

    pub closed spec fn spec_surfaces(&self) -> Seq<usize> {
        self.surfaces@
    }

    pub closed spec fn spec_triggers(&self) -> Seq<TriggerState> {
        self.triggers@
    }

    /// The prop handle occupying the cell with linear index `c`.
    pub closed spec fn prop_at_cell(&self, c: int) -> Option<usize> {
        self.prop_grid@[c]
    }

    /// The ordered entity handles occupying the cell with linear index `c`.
    pub closed spec fn occupants_at_cell(&self, c: int) -> Seq<usize> {
        self.entity_grid@[c]@
    }

    /// The surface handles registered at the cell with linear index `c`.
    pub closed spec fn surfaces_at_cell(&self, c: int) -> Seq<usize> {
        self.surface_grid@[c]@
    }

    pub closed spec fn transition_at_cell(&self, c: int) -> Option<usize> {
        self.transition_grid@[c]
    }

    pub closed spec fn trigger_at_cell(&self, c: int) -> Option<usize> {
        self.trigger_grid@[c]
    }

    pub closed spec fn spec_prop_vis(&self) -> Seq<bool> {
        self.prop_vis_grid@
    }

    pub closed spec fn spec_prop_pass(&self) -> Seq<bool> {
        self.prop_pass_grid@
    }

    pub closed spec fn spec_redraw(&self) -> PCVisRedraw {
        self.pc_vis_redraw
    }

    pub closed spec fn spec_visible(&self) -> Seq<bool> {
        self.pc_vis@
    }

    pub closed spec fn spec_explored(&self) -> Seq<bool> {
        self.pc_explored@
    }

    /// Whether `e` names a live entity.
    pub open spec fn live(&self, e: usize) -> bool {
        e < self.spec_entities().len() && self.spec_entities()[e as int] is Some
    }

    /// The record of the live entity `e`.
    pub open spec fn entity(&self, e: usize) -> EntityState
        recommends
            self.live(e),
    {
        self.spec_entities()[e as int]->Some_0
    }

    /// Whether the live entity `e` covers the cell with linear index `c`.
    pub open spec fn live_covers(&self, e: usize, c: int) -> bool {
        self.live(e) && covers(
            self.entity(e),
            cell_x(self.spec_width() as int, c),
            cell_y(self.spec_width() as int, c),
        )
    }

    /// An entity footprint lies fully on the grid.
    pub open spec fn ent_in_bounds(&self, ent: EntityState) -> bool {
        &&& 0 <= ent.location.x
        &&& ent.location.x + ent.size.width <= self.spec_width()
        &&& 0 <= ent.location.y
        &&& ent.location.y + ent.size.height <= self.spec_height()
    }

    /// A prop footprint lies fully on the grid.
    pub open spec fn prop_in_bounds(&self, prop: PropState) -> bool {
        &&& 0 <= prop.location.x
        &&& prop.location.x + prop.size.width <= self.spec_width()
        &&& 0 <= prop.location.y
        &&& prop.location.y + prop.size.height <= self.spec_height()
    }

    /// All grids cover the area and the arenas are parallel.
    spec fn grids_wf(&self) -> bool {
        &&& 1 <= self.width
        &&& 1 <= self.height
        &&& self.width * self.height <= i32::MAX
        &&& self.terrain_pass@.len() == self.dim()
        &&& self.prop_grid@.len() == self.dim()
        &&& self.entity_grid@.len() == self.dim()
        &&& self.surface_grid@.len() == self.dim()
        &&& self.transition_grid@.len() == self.dim()
        &&& self.trigger_grid@.len() == self.dim()
        &&& self.prop_vis_grid@.len() == self.dim()
        &&& self.prop_pass_grid@.len() == self.dim()
        &&& self.pc_vis@.len() == self.dim()
        &&& self.pc_explored@.len() == self.dim()
        &&& self.member_vis@.len() == self.entities@.len()
        &&& (forall|e: int|
            0 <= e < self.member_vis@.len() ==> (#[trigger] self.member_vis@[e])@.len()
                == self.dim())
    }

    /// Every prop-grid cell points at a live, well-formed prop whose
    /// footprint covers the cell.
    spec fn props_wf(&self) -> bool {
        &&& (forall|j: int|
            0 <= j < self.props@.len() && (#[trigger] self.props@[j]) is Some ==> (
            self.props@[j]->Some_0.wf_spec() && self.prop_in_bounds(self.props@[j]->Some_0)))
        &&& (forall|c: int|
            0 <= c < self.dim() && (#[trigger] self.prop_grid@[c]) is Some ==> {
                let j = self.prop_grid@[c]->Some_0 as int;
                &&& j < self.props@.len()
                &&& self.props@[j] is Some
                &&& prop_covers(
                    self.props@[j]->Some_0,
                    cell_x(self.width as int, c),
                    cell_y(self.width as int, c),
                )
            })
    }

    /// Every live entity is well-formed and on the grid, and the live
    /// list holds exactly the live handles.
    spec fn arena_wf(&self) -> bool {
        &&& (forall|e: int|
            0 <= e < self.entities@.len() && (#[trigger] self.entities@[e]) is Some ==> (
            self.entities@[e]->Some_0.wf_spec() && self.ent_in_bounds(self.entities@[e]->Some_0)))
        &&& (forall|e: usize|
            #[trigger] self.entity_list@.contains(e) <==> self.live(e))
        &&& no_dups(self.entity_list@)
        &&& (forall|c: int| 0 <= c < self.dim() ==> no_dups((#[trigger] self.entity_grid@[c])@))
    }

    /// The occupancy grid holds exactly the live footprints.
    spec fn occupancy_exact(&self) -> bool {
        forall|c: int, e: usize|
            0 <= c < self.dim() ==> (#[trigger] self.entity_grid@[c]@.contains(e)
                <==> self.live_covers(e, c))
    }

    /// The occupancy grid holds exactly the live footprints except that
    /// entity `ex` stands nowhere: the mid-state of the move protocol.
    spec fn occupancy_except(&self, ex: usize) -> bool {
        forall|c: int, e: usize|
            0 <= c < self.dim() ==> (#[trigger] self.entity_grid@[c]@.contains(e) <==> (e != ex
                && self.live_covers(e, c)))
    }

    spec fn entities_wf(&self) -> bool {
        &&& self.arena_wf()
        &&& self.occupancy_exact()
    }

    /// Every recorded melee-threat pair names two distinct, mutually
    /// hostile live entities, and no pair is recorded twice.
    spec fn threats_wf(&self) -> bool {
        &&& (forall|k: int|
            0 <= k < self.threat_pairs@.len() ==> {
                let p = #[trigger] self.threat_pairs@[k];
                &&& self.live(p.0)
                &&& self.live(p.1)
                &&& p.0 != p.1
                &&& self.entity(p.0).faction.is_hostile_spec(&self.entity(p.1).faction)
            })
        &&& no_dups(self.threat_pairs@)
    }

    /// Every trigger-grid cell points into the trigger table.
    spec fn zones_wf(&self) -> bool {
        forall|c: int|
            0 <= c < self.dim() && (#[trigger] self.trigger_grid@[c]) is Some
                ==> self.trigger_grid@[c]->Some_0 < self.triggers@.len()
    }

    /// The well-formedness invariant that every operation preserves: the
    /// grids cover the area and agree with the live entities and props.
    pub closed spec fn wf(&self) -> bool {
        &&& self.grids_wf()
        &&& self.props_wf()
        &&& self.entities_wf()
        &&& self.threats_wf()
        &&& self.zones_wf()
    }

    /// Footprint invariant: in a well-formed area the entity occupancy
    /// grid holds, at every cell, exactly the live entities whose current
    /// footprint covers that cell.
    pub proof fn lemma_occupancy_exact(&self, x: int, y: int, e: usize)
        requires
            self.wf(),
            valid_coords(self.spec_width() as int, self.spec_height() as int, x, y),
        ensures
            self.occupants_at_cell(cell_index(self.spec_width() as int, x, y)).contains(e) <==> (
            self.live(e) && covers(self.entity(e), x, y)),
    {
        lemma_cell_index_bijective(self.spec_width() as int, self.spec_height() as int, x, y);
    }

    /// A fresh area state over the given terrain passability grid: no
    /// entities, props, surfaces or triggers, nothing explored.
    pub fn new(width: i32, height: i32, terrain_pass: Vec<bool>) -> (a: AreaState)
        requires
            1 <= width,
            1 <= height,
            width * height <= i32::MAX,
            terrain_pass@.len() == width * height,
        ensures
            a.wf(),
            a.spec_width() == width,
            a.spec_height() == height,
            a.spec_terrain() == terrain_pass@,
            a.spec_entities().len() == 0,
            a.spec_props().len() == 0,
            a.spec_triggers().len() == 0,
            a.spec_surfaces().len() == 0,
            a.spec_entity_list().len() == 0,
            a.spec_threat_pairs().len() == 0,
            a.spec_redraw() == PCVisRedraw::Not,
            forall|c: int| 0 <= c < a.dim() ==> !a.spec_explored()[c],
            forall|c: int| 0 <= c < a.dim() ==> !a.spec_visible()[c],
            forall|c: int| 0 <= c < a.dim() ==> a.prop_at_cell(c) is None,
            forall|c: int| 0 <= c < a.dim() ==> a.occupants_at_cell(c).len() == 0,
            forall|c: int| 0 <= c < a.dim() ==> a.surfaces_at_cell(c).len() == 0,
            forall|c: int| 0 <= c < a.dim() ==> a.transition_at_cell(c) is None,
            forall|c: int| 0 <= c < a.dim() ==> a.trigger_at_cell(c) is None,
            forall|c: int| 0 <= c < a.dim() ==> a.spec_prop_vis()[c],
            forall|c: int| 0 <= c < a.dim() ==> a.spec_prop_pass()[c],
    {
        let dim = (width * height) as usize;
        AreaState {
            width,
            height,
            terrain_pass,
            props: Vec::new(),
            entities: Vec::new(),
            entity_list: Vec::new(),
            member_vis: Vec::new(),
            threat_pairs: Vec::new(),
            surfaces: Vec::new(),
            triggers: Vec::new(),
            prop_grid: filled_vec(dim, None),
            entity_grid: filled_lists(dim),
            surface_grid: filled_lists(dim),
            transition_grid: filled_vec(dim, None),
            trigger_grid: filled_vec(dim, None),
            prop_vis_grid: filled_vec(dim, true),
            prop_pass_grid: filled_vec(dim, true),
            pc_vis_redraw: PCVisRedraw::Not,
            pc_vis: filled_vec(dim, false),
            pc_explored: filled_vec(dim, false),
        }
    }

    /// Whether the base terrain lets anything stand on `(x, y)`.
    pub fn is_terrain_passable(&self, x: i32, y: i32) -> (r: bool)
        requires
            self.wf(),
        ensures
            r == self.terrain_passable_at(x as int, y as int),
    {
        if x < 0 || y < 0 || x >= self.width || y >= self.height {
            return false;
        }
        let c = cell_index_exec(self.width, self.height, x, y);
        self.terrain_pass[c]
    }

    /// Terrain passability of one cell, bounds included.
    pub open spec fn terrain_passable_at(&self, x: int, y: int) -> bool {
        &&& valid_coords(self.spec_width() as int, self.spec_height() as int, x, y)
        &&& self.spec_terrain()[cell_index(self.spec_width() as int, x, y)]
    }

    /// One placement-layer cell: terrain and the prop passability
    /// overlay, with no regard to entity occupancy.
    pub open spec fn placement_passable_at(&self, x: int, y: int) -> bool {
        &&& self.terrain_passable_at(x, y)
        &&& self.spec_prop_pass()[cell_index(self.spec_width() as int, x, y)]
    }
}

/// The two areas have the same dimensions and terrain.
pub open spec fn same_config(a: &AreaState, b: &AreaState) -> bool {
    &&& b.spec_width() == a.spec_width()
    &&& b.spec_height() == a.spec_height()
    &&& b.spec_terrain() == a.spec_terrain()
}

/// The two areas hold the same entities, occupancy, visibility grids and
/// threat relation.
pub open spec fn same_entity_state(a: &AreaState, b: &AreaState) -> bool {
    &&& b.spec_entities() == a.spec_entities()
    &&& b.spec_entity_list() == a.spec_entity_list()
    &&& b.spec_threat_pairs() == a.spec_threat_pairs()
    &&& (forall|c: int|
        0 <= c < a.dim() ==> #[trigger] b.occupants_at_cell(c) == a.occupants_at_cell(c))
    &&& (forall|e: int|
        0 <= e < a.spec_entities().len() ==> #[trigger] b.spec_member_vis(e) == a.spec_member_vis(
            e,
        ))
}

/// The two areas hold the same props, prop occupancy and overlays.
pub open spec fn same_prop_state(a: &AreaState, b: &AreaState) -> bool {
    &&& b.spec_props() == a.spec_props()
    &&& (forall|c: int| 0 <= c < a.dim() ==> #[trigger] b.prop_at_cell(c) == a.prop_at_cell(c))
    &&& b.spec_prop_vis() == a.spec_prop_vis()
    &&& b.spec_prop_pass() == a.spec_prop_pass()
}

/// The two areas hold the same surface registrations.
pub open spec fn same_surface_state(a: &AreaState, b: &AreaState) -> bool {
    &&& b.spec_surfaces() == a.spec_surfaces()
    &&& (forall|c: int|
        0 <= c < a.dim() ==> #[trigger] b.surfaces_at_cell(c) == a.surfaces_at_cell(c))
}

/// The two areas hold the same trigger and transition zones.
pub open spec fn same_zone_state(a: &AreaState, b: &AreaState) -> bool {
    &&& b.spec_triggers() == a.spec_triggers()
    &&& (forall|c: int|
        0 <= c < a.dim() ==> #[trigger] b.trigger_at_cell(c) == a.trigger_at_cell(c))
    &&& (forall|c: int|
        0 <= c < a.dim() ==> #[trigger] b.transition_at_cell(c) == a.transition_at_cell(c))
}

/// The two areas agree on current visibility, exploration and the
/// outstanding redraw hint.
pub open spec fn same_fog_state(a: &AreaState, b: &AreaState) -> bool {
    &&& b.spec_visible() == a.spec_visible()
    &&& b.spec_explored() == a.spec_explored()
    &&& b.spec_redraw() == a.spec_redraw()
}

/// The visibility or passability overlay value of one cell after a
/// door-like prop's overlay is rewritten: an open door frees its whole
/// footprint; a closed door blocks the listed footprint-relative points;
/// a prop that is no door leaves the overlay alone.
pub open spec fn overlay_after(
    prop: PropState,
    closed_points: Seq<Point>,
    old_value: bool,
    x: int,
    y: int,
) -> bool {
    if !prop.is_door {
        old_value
    } else if prop.active {
        if prop_covers(prop, x, y) {
            true
        } else {
            old_value
        }
    } else {
        if exists|k: int|
            0 <= k < closed_points.len() && x == prop.location.x + (#[trigger] closed_points[k]).x
                && y == prop.location.y + closed_points[k].y {
            false
        } else {
            old_value
        }
    }
}

impl AreaState {
    /// The lowest free prop slot, the arena grown by one where none is
    /// free.
    fn find_prop_index_to_add(&mut self) -> (idx: usize)
        ensures
            final(self).props@.len() > idx,
            final(self).props@[idx as int] is None,
            forall|j: int| 0 <= j < idx ==> old(self).props@[j] is Some,
            (idx < old(self).props@.len() && final(self).props@ == old(self).props@) || (idx == old(self).props@.len() && final(self).props@ == old(self).props@.push(None::<PropState>)),
            final(self).width == old(self).width,
            final(self).height == old(self).height,
            final(self).terrain_pass == old(self).terrain_pass,
            final(self).entities == old(self).entities,
            final(self).entity_list == old(self).entity_list,
            final(self).member_vis == old(self).member_vis,
            final(self).threat_pairs == old(self).threat_pairs,
            final(self).surfaces == old(self).surfaces,
            final(self).triggers == old(self).triggers,
            final(self).prop_grid == old(self).prop_grid,
            final(self).entity_grid == old(self).entity_grid,
            final(self).surface_grid == old(self).surface_grid,
            final(self).transition_grid == old(self).transition_grid,
            final(self).trigger_grid == old(self).trigger_grid,
            final(self).prop_vis_grid == old(self).prop_vis_grid,
            final(self).prop_pass_grid == old(self).prop_pass_grid,
            final(self).pc_vis_redraw == old(self).pc_vis_redraw,
            final(self).pc_vis == old(self).pc_vis,
            final(self).pc_explored == old(self).pc_explored,
    {
        let mut index: usize = 0;
        while index < self.props.len()
            invariant
                index <= self.props@.len(),
                forall|j: int| 0 <= j < index ==> self.props@[j] is Some,
            decreases self.props@.len() - index,
        {
            if self.props[index].is_none() {
                return index;
            }
            index += 1;
        }
        self.props.push(None);
        self.props.len() - 1
    }

    /// Rewrites the prop visibility and passability overlays for the prop
    /// in slot `index`, following its door state.
    fn update_prop_vis_pass_grid(&mut self, index: usize)
        requires
            old(self).wf(),
            index < old(self).props@.len(),
            old(self).props@[index as int] is Some,
        ensures
            final(self).wf(),
            *final(self) == (AreaState {
                prop_vis_grid: final(self).prop_vis_grid,
                prop_pass_grid: final(self).prop_pass_grid,
                ..*old(self)
            }),
            ({
                let prop = old(self).props@[index as int]->Some_0;
                &&& final(self).prop_vis_grid@.len() == old(self).prop_vis_grid@.len()
                &&& final(self).prop_pass_grid@.len() == old(self).prop_pass_grid@.len()
                &&& (forall|c: int|
                    0 <= c < old(self).dim() ==> final(self).prop_vis_grid@[c] == overlay_after(
                        prop,
                        prop.closed_invis@,
                        old(self).prop_vis_grid@[c],
                        cell_x(old(self).spec_width() as int, c),
                        cell_y(old(self).spec_width() as int, c),
                    ))
                &&& (forall|c: int|
                    0 <= c < old(self).dim() ==> final(self).prop_pass_grid@[c] == overlay_after(
                        prop,
                        prop.closed_impass@,
                        old(self).prop_pass_grid@[c],
                        cell_x(old(self).spec_width() as int, c),
                        cell_y(old(self).spec_width() as int, c),
                    ))
            }),
    {
        let ghost w = self.width as int;
        let ghost h = self.height as int;
        let is_door = match &self.props[index] {
            Some(p) => p.is_door,
            None => false,
        };
        let is_active = match &self.props[index] {
            Some(p) => p.active,
            None => false,
        };
        if !is_door {
            return ;
        }

        let (start_x, start_y, end_x, end_y) = match &self.props[index] {
            Some(p) => (p.location.x, p.location.y, p.location.x + p.size.width, p.location.y
                + p.size.height),
            None => (0, 0, 0, 0),
        };

        if is_active {
            let ghost prop = self.props@[index as int]->Some_0;
            let mut y = start_y;
            while y < end_y
                invariant
                    self.wf(),
                    start_y <= y <= end_y,
                    w == self.width as int,
                    h == self.height as int,
                    index < self.props@.len(),
                    self.props@[index as int] is Some,
                    prop == self.props@[index as int]->Some_0,
                    prop.is_door && prop.active,
                    start_x == prop.location.x,
                    start_y == prop.location.y,
                    end_x == prop.location.x + prop.size.width,
                    end_y == prop.location.y + prop.size.height,
                    *self == (AreaState {
                        prop_vis_grid: self.prop_vis_grid,
                        prop_pass_grid: self.prop_pass_grid,
                        ..*old(self)
                    }),
                    self.prop_vis_grid@.len() == old(self).prop_vis_grid@.len(),
                    self.prop_pass_grid@.len() == old(self).prop_pass_grid@.len(),
                    forall|c: int|
                        0 <= c < self.dim() ==> #[trigger] self.prop_vis_grid@[c] == (if (
                        prop_covers(prop, cell_x(w, c), cell_y(w, c)) && cell_y(w, c) < y) {
                            true
                        } else {
                            old(self).prop_vis_grid@[c]
                        }),
                    forall|c: int|
                        0 <= c < self.dim() ==> #[trigger] self.prop_pass_grid@[c] == (if (
                        prop_covers(prop, cell_x(w, c), cell_y(w, c)) && cell_y(w, c) < y) {
                            true
                        } else {
                            old(self).prop_pass_grid@[c]
                        }),
                decreases end_y - y,
            {
                let mut x = start_x;
                while x < end_x
                    invariant
                        self.wf(),
                        start_x <= x <= end_x,
                        start_y <= y < end_y,
                        w == self.width as int,
                        h == self.height as int,
                        index < self.props@.len(),
                        self.props@[index as int] is Some,
                        prop == self.props@[index as int]->Some_0,
                        prop.is_door && prop.active,
                        start_x == prop.location.x,
                        start_y == prop.location.y,
                        end_x == prop.location.x + prop.size.width,
                        end_y == prop.location.y + prop.size.height,
                        *self == (AreaState {
                            prop_vis_grid: self.prop_vis_grid,
                            prop_pass_grid: self.prop_pass_grid,
                            ..*old(self)
                        }),
                        self.prop_vis_grid@.len() == old(self).prop_vis_grid@.len(),
                        self.prop_pass_grid@.len() == old(self).prop_pass_grid@.len(),
                        forall|c: int|
                            0 <= c < self.dim() ==> #[trigger] self.prop_vis_grid@[c] == (if (
                            prop_covers(prop, cell_x(w, c), cell_y(w, c)) && (cell_y(w, c) < y || (
                            cell_y(w, c) == y && cell_x(w, c) < x))) {
                                true
                            } else {
                                old(self).prop_vis_grid@[c]
                            }),
                        forall|c: int|
                            0 <= c < self.dim() ==> #[trigger] self.prop_pass_grid@[c] == (if (
                            prop_covers(prop, cell_x(w, c), cell_y(w, c)) && (cell_y(w, c) < y || (
                            cell_y(w, c) == y && cell_x(w, c) < x))) {
                                true
                            } else {
                                old(self).prop_pass_grid@[c]
                            }),
                    decreases end_x - x,
                {
                    let c = cell_index_exec(self.width, self.height, x, y);
                    self.prop_vis_grid.set(c, true);
                    self.prop_pass_grid.set(c, true);
                    proof {
                        lemma_cell_index_bijective(w, h, x as int, y as int);
                        lemma_grid_injective(w, h);
                    }
                    x += 1;
                }
                y += 1;
            }
        } else {
            let ghost prop = self.props@[index as int]->Some_0;
            let invis_len = match &self.props[index] {
                Some(p) => p.closed_invis.len(),
                None => 0,
            };
            let mut k: usize = 0;
            while k < invis_len
                invariant
                    self.wf(),
                    k <= invis_len,
                    w == self.width as int,
                    h == self.height as int,
                    index < self.props@.len(),
                    self.props@[index as int] is Some,
                    prop == self.props@[index as int]->Some_0,
                    prop.is_door && !prop.active,
                    invis_len == prop.closed_invis@.len(),
                    *self == (AreaState {
                        prop_vis_grid: self.prop_vis_grid,
                        ..*old(self)
                    }),
                    self.prop_vis_grid@.len() == old(self).prop_vis_grid@.len(),
                    forall|c: int|
                        0 <= c < self.dim() ==> #[trigger] self.prop_vis_grid@[c] == (if (exists|
                        j: int,
                    |
                            0 <= j < k && cell_x(w, c) == prop.location.x + (
                            #[trigger] prop.closed_invis@[j]).x && cell_y(w, c) == prop.location.y
                                + prop.closed_invis@[j].y) {
                            false
                        } else {
                            old(self).prop_vis_grid@[c]
                        }),
                decreases invis_len - k,
            {
                let (px, py) = match &self.props[index] {
                    Some(p) => (p.closed_invis[k].x, p.closed_invis[k].y),
                    None => (0, 0),
                };
                let (bx, by) = match &self.props[index] {
                    Some(p) => (p.location.x, p.location.y),
                    None => (0, 0),
                };
                let c = cell_index_exec(self.width, self.height, bx + px, by + py);
                self.prop_vis_grid.set(c, false);
                proof {
                    lemma_cell_index_bijective(w, h, (bx + px) as int, (by + py) as int);
                    lemma_grid_injective(w, h);
                }
                k += 1;
            }
            let impass_len = match &self.props[index] {
                Some(p) => p.closed_impass.len(),
                None => 0,
            };
            let mut k2: usize = 0;
            while k2 < impass_len
                invariant
                    self.wf(),
                    k2 <= impass_len,
                    w == self.width as int,
                    h == self.height as int,
                    index < self.props@.len(),
                    self.props@[index as int] is Some,
                    prop == self.props@[index as int]->Some_0,
                    prop.is_door && !prop.active,
                    impass_len == prop.closed_impass@.len(),
                    *self == (AreaState {
                        prop_vis_grid: self.prop_vis_grid,
                        prop_pass_grid: self.prop_pass_grid,
                        ..*old(self)
                    }),
                    self.prop_vis_grid@.len() == old(self).prop_vis_grid@.len(),
                    self.prop_pass_grid@.len() == old(self).prop_pass_grid@.len(),
                    forall|c: int|
                        0 <= c < self.dim() ==> #[trigger] self.prop_vis_grid@[c] == (if (exists|
                        j: int,
                    |
                            0 <= j < prop.closed_invis@.len() && cell_x(w, c) == prop.location.x + (
                            #[trigger] prop.closed_invis@[j]).x && cell_y(w, c) == prop.location.y
                                + prop.closed_invis@[j].y) {
                            false
                        } else {
                            old(self).prop_vis_grid@[c]
                        }),
                    forall|c: int|
                        0 <= c < self.dim() ==> #[trigger] self.prop_pass_grid@[c] == (if (exists|
                        j: int,
                    |
                            0 <= j < k2 && cell_x(w, c) == prop.location.x + (
                            #[trigger] prop.closed_impass@[j]).x && cell_y(w, c) == prop.location.y
                                + prop.closed_impass@[j].y) {
                            false
                        } else {
                            old(self).prop_pass_grid@[c]
                        }),
                decreases impass_len - k2,
            {
                let (px, py) = match &self.props[index] {
                    Some(p) => (p.closed_impass[k2].x, p.closed_impass[k2].y),
                    None => (0, 0),
                };
                let (bx, by) = match &self.props[index] {
                    Some(p) => (p.location.x, p.location.y),
                    None => (0, 0),
                };
                let c = cell_index_exec(self.width, self.height, bx + px, by + py);
                self.prop_pass_grid.set(c, false);
                proof {
                    lemma_cell_index_bijective(w, h, (bx + px) as int, (by + py) as int);
                    lemma_grid_injective(w, h);
                }
                k2 += 1;
            }
        }
    }
}

impl AreaState {
    /// Places a prop, overwriting any occupant of its cells without
    /// error, and applies its door overlay.  A malformed prop or one
    /// whose footprint leaves the grid is rejected as invalid data.
    pub fn add_prop(&mut self, prop: PropState) -> (r: Result<usize, AreaError>)
        requires
            old(self).wf(),
        ensures
            final(self).wf(),
            same_config(old(self), final(self)),
            same_entity_state(old(self), final(self)),
            same_surface_state(old(self), final(self)),
            same_zone_state(old(self), final(self)),
            same_fog_state(old(self), final(self)),
            r is Ok <==> (prop.wf_spec() && old(self).prop_in_bounds(prop)),
            r is Err ==> same_prop_state(old(self), final(self)),
            r matches Ok(idx) ==> ({
                &&& idx < final(self).spec_props().len()
                &&& (forall|j: int| 0 <= j < idx ==> old(self).spec_props()[j] is Some)
                &&& final(self).spec_props()[idx as int] == Some(prop)
                &&& ((idx < old(self).spec_props().len() && old(self).spec_props()[idx as int]
                    is None && final(self).spec_props() == old(self).spec_props().update(
                    idx as int,
                    Some(prop),
                )) || (idx == old(self).spec_props().len() && final(self).spec_props() == old(self).spec_props().push(Some(prop))))
                &&& (forall|c: int|
                    0 <= c < old(self).dim() ==> #[trigger] final(self).prop_at_cell(c) == (
                    if prop_covers(
                        prop,
                        cell_x(old(self).spec_width() as int, c),
                        cell_y(old(self).spec_width() as int, c),
                    ) {
                        Some(idx)
                    } else {
                        old(self).prop_at_cell(c)
                    }))
                &&& (forall|c: int|
                    0 <= c < old(self).dim() ==> #[trigger] final(self).spec_prop_vis()[c]
                        == overlay_after(
                        prop,
                        prop.closed_invis@,
                        old(self).spec_prop_vis()[c],
                        cell_x(old(self).spec_width() as int, c),
                        cell_y(old(self).spec_width() as int, c),
                    ))
                &&& (forall|c: int|
                    0 <= c < old(self).dim() ==> #[trigger] final(self).spec_prop_pass()[c]
                        == overlay_after(
                        prop,
                        prop.closed_impass@,
                        old(self).spec_prop_pass()[c],
                        cell_x(old(self).spec_width() as int, c),
                        cell_y(old(self).spec_width() as int, c),
                    ))
            }),
    {
        let ghost w = self.width as int;
        let ghost h = self.height as int;
        let valid = {
            let size_ok = 1 <= prop.size.width && prop.size.width <= 0x7FFF && 1
                <= prop.size.height && prop.size.height <= 0x7FFF;
            let bounds_ok = size_ok && 0 <= prop.location.x && prop.location.x <= self.width
                - prop.size.width && 0 <= prop.location.y && prop.location.y <= self.height
                - prop.size.height;
            bounds_ok && points_in_size(&prop.closed_invis, prop.size) && points_in_size(
                &prop.closed_impass,
                prop.size,
            )
        };
        if !valid {
            return Err(AreaError::InvalidData);
        }

        let index = self.find_prop_index_to_add();
        let start_x = prop.location.x;
        let start_y = prop.location.y;
        let end_x = prop.location.x + prop.size.width;
        let end_y = prop.location.y + prop.size.height;
        let ghost prop_snap = prop;
        self.props.set(index, Some(prop));
        let ghost mid = *self;

        let mut y = start_y;
        while y < end_y
            invariant
                self.wf(),
                start_y <= y <= end_y,
                w == self.width as int,
                h == self.height as int,
                index < self.props@.len(),
                self.props@[index as int] == Some(prop_snap),
                prop_snap.wf_spec(),
                start_x == prop_snap.location.x,
                start_y == prop_snap.location.y,
                end_x == prop_snap.location.x + prop_snap.size.width,
                end_y == prop_snap.location.y + prop_snap.size.height,
                self.prop_in_bounds(prop_snap),
                *self == (AreaState { prop_grid: self.prop_grid, ..mid }),
                self.prop_grid@.len() == mid.prop_grid@.len(),
                forall|c: int|
                    0 <= c < self.dim() ==> #[trigger] self.prop_grid@[c] == (if (prop_covers(
                        prop_snap,
                        cell_x(w, c),
                        cell_y(w, c),
                    ) && cell_y(w, c) < y) {
                        Some(index)
                    } else {
                        mid.prop_grid@[c]
                    }),
            decreases end_y - y,
        {
            let mut x = start_x;
            while x < end_x
                invariant
                    self.wf(),
                    start_x <= x <= end_x,
                    start_y <= y < end_y,
                    w == self.width as int,
                    h == self.height as int,
                    index < self.props@.len(),
                    self.props@[index as int] == Some(prop_snap),
                    prop_snap.wf_spec(),
                    start_x == prop_snap.location.x,
                    start_y == prop_snap.location.y,
                    end_x == prop_snap.location.x + prop_snap.size.width,
                    end_y == prop_snap.location.y + prop_snap.size.height,
                    self.prop_in_bounds(prop_snap),
                    *self == (AreaState { prop_grid: self.prop_grid, ..mid }),
                    self.prop_grid@.len() == mid.prop_grid@.len(),
                    forall|c: int|
                        0 <= c < self.dim() ==> #[trigger] self.prop_grid@[c] == (if (prop_covers(
                            prop_snap,
                            cell_x(w, c),
                            cell_y(w, c),
                        ) && (cell_y(w, c) < y || (cell_y(w, c) == y && cell_x(w, c) < x))) {
                            Some(index)
                        } else {
                            mid.prop_grid@[c]
                        }),
                decreases end_x - x,
            {
                let c = cell_index_exec(self.width, self.height, x, y);
                self.prop_grid.set(c, Some(index));
                proof {
                    lemma_cell_index_bijective(w, h, x as int, y as int);
                    lemma_grid_injective(w, h);
                }
                x += 1;
            }
            y += 1;
        }

        self.update_prop_vis_pass_grid(index);
        Ok(index)
    }

    /// Clears the prop in slot `index`: its own footprint cells are
    /// emptied even where a later prop overwrote them.  A free slot is
    /// left alone.
    pub fn remove_prop(&mut self, index: usize)
        requires
            old(self).wf(),
        ensures
            final(self).wf(),
            same_config(old(self), final(self)),
            same_entity_state(old(self), final(self)),
            same_surface_state(old(self), final(self)),
            same_zone_state(old(self), final(self)),
            same_fog_state(old(self), final(self)),
            final(self).spec_prop_vis() == old(self).spec_prop_vis(),
            final(self).spec_prop_pass() == old(self).spec_prop_pass(),
            (index >= old(self).spec_props().len() || old(self).spec_props()[index as int]
                is None) ==> same_prop_state(old(self), final(self)),
            (index < old(self).spec_props().len() && old(self).spec_props()[index as int]
                is Some) ==> ({
                let p = old(self).spec_props()[index as int]->Some_0;
                &&& final(self).spec_props() == old(self).spec_props().update(
                    index as int,
                    None::<PropState>,
                )
                &&& (forall|c: int|
                    0 <= c < old(self).dim() ==> #[trigger] final(self).prop_at_cell(c) == (
                    if prop_covers(
                        p,
                        cell_x(old(self).spec_width() as int, c),
                        cell_y(old(self).spec_width() as int, c),
                    ) {
                        None::<usize>
                    } else {
                        old(self).prop_at_cell(c)
                    }))
            }),
    {
        let ghost w = self.width as int;
        let ghost h = self.height as int;
        if index >= self.props.len() {
            return ;
        }
        let (start_x, start_y, end_x, end_y) = match &self.props[index] {
            None => {
                return ;
            },
            Some(p) => (p.location.x, p.location.y, p.location.x + p.size.width, p.location.y
                + p.size.height),
        };
        let ghost p_snap = self.props@[index as int]->Some_0;
        let ghost pre = *self;

        let mut y = start_y;
        while y < end_y
            invariant
                self.wf(),
                start_y <= y <= end_y,
                w == self.width as int,
                h == self.height as int,
                index < self.props@.len(),
                self.props@[index as int] == Some(p_snap),
                p_snap.wf_spec(),
                start_x == p_snap.location.x,
                start_y == p_snap.location.y,
                end_x == p_snap.location.x + p_snap.size.width,
                end_y == p_snap.location.y + p_snap.size.height,
                self.prop_in_bounds(p_snap),
                *self == (AreaState { prop_grid: self.prop_grid, ..pre }),
                self.prop_grid@.len() == pre.prop_grid@.len(),
                forall|c: int|
                    0 <= c < self.dim() ==> #[trigger] self.prop_grid@[c] == (if (prop_covers(
                        p_snap,
                        cell_x(w, c),
                        cell_y(w, c),
                    ) && cell_y(w, c) < y) {
                        None::<usize>
                    } else {
                        pre.prop_grid@[c]
                    }),
            decreases end_y - y,
        {
            let mut x = start_x;
            while x < end_x
                invariant
                    self.wf(),
                    start_x <= x <= end_x,
                    start_y <= y < end_y,
                    w == self.width as int,
                    h == self.height as int,
                    index < self.props@.len(),
                    self.props@[index as int] == Some(p_snap),
                    p_snap.wf_spec(),
                    start_x == p_snap.location.x,
                    start_y == p_snap.location.y,
                    end_x == p_snap.location.x + p_snap.size.width,
                    end_y == p_snap.location.y + p_snap.size.height,
                    self.prop_in_bounds(p_snap),
                    *self == (AreaState { prop_grid: self.prop_grid, ..pre }),
                    self.prop_grid@.len() == pre.prop_grid@.len(),
                    forall|c: int|
                        0 <= c < self.dim() ==> #[trigger] self.prop_grid@[c] == (if (prop_covers(
                            p_snap,
                            cell_x(w, c),
                            cell_y(w, c),
                        ) && (cell_y(w, c) < y || (cell_y(w, c) == y && cell_x(w, c) < x))) {
                            None::<usize>
                        } else {
                            pre.prop_grid@[c]
                        }),
                decreases end_x - x,
            {
                let c = cell_index_exec(self.width, self.height, x, y);
                self.prop_grid.set(c, None);
                proof {
                    lemma_cell_index_bijective(w, h, x as int, y as int);
                    lemma_grid_injective(w, h);
                }
                x += 1;
            }
            y += 1;
        }

        self.props.set(index, None);
    }
}

/// The events fired by one completed move: the surfaces left, entered
/// and stayed within, and the trigger set off, if any.
pub struct MoveEvents {
    pub left: Vec<usize>,
    pub entered: Vec<usize>,
    pub moved_within: Vec<usize>,
    pub fired_trigger: Option<usize>,
}

/// What the melee-threat relation holds after recomputing the pairs that
/// involve `mover`: exactly the threats read off the current positions for
/// hostile pairs with `mover` (none at all where `mover` is being
/// removed), and the old relation everywhere else.
pub open spec fn threats_after(
    pre_pairs: Seq<(usize, usize)>,
    post: &AreaState,
    mover: usize,
    removal: bool,
) -> bool {
    forall|a: usize, b: usize|
        #[trigger] post.spec_threat_pairs().contains((a, b)) == (if a == mover && b != mover
            && post.live(b) && post.live(mover) && post.entity(mover).faction.is_hostile_spec(
            &post.entity(b).faction,
        ) {
            !removal && is_threat_spec(post.entity(mover), post.entity(b))
        } else if b == mover && a != mover && post.live(a) && post.live(mover) && post.entity(
            mover,
        ).faction.is_hostile_spec(&post.entity(a).faction) {
            !removal && is_threat_spec(post.entity(a), post.entity(mover))
        } else {
            pre_pairs.contains((a, b))
        })
}

impl AreaState {
    /// The surfaces with membership anywhere under a footprint at `loc`
    /// of the given size.
    pub open spec fn footprint_surfaces(&self, loc: Point, size: Size) -> Set<usize> {
        Set::new(
            |s: usize|
                exists|x: int, y: int|
                    loc.x <= x < loc.x + size.width && loc.y <= y < loc.y + size.height
                        && self.surfaces_at_cell(
                        cell_index(self.spec_width() as int, x, y),
                    ).contains(s),
        )
    }

    /// The invariant of the mid-move state: everything of `wf` but with
    /// entity `ex` standing nowhere on the occupancy grid.
    spec fn wf_except(&self, ex: usize) -> bool {
        &&& self.grids_wf()
        &&& self.props_wf()
        &&& self.arena_wf()
        &&& self.occupancy_except(ex)
        &&& self.threats_wf()
        &&& self.zones_wf()
    }

    /// Unregisters the footprint of the live entity `e` and returns the
    /// surfaces that footprint belonged to.
    #[verifier::loop_isolation(false)]
    fn clear_entity_points(&mut self, e: usize) -> (surfs: Vec<usize>)
        requires
            old(self).wf(),
            old(self).live(e),
        ensures
            final(self).wf_except(e),
            *final(self) == (AreaState { entity_grid: final(self).entity_grid, ..*old(self) }),
            final(self).entity_grid@.len() == old(self).entity_grid@.len(),
            forall|c: int, x: usize|
                0 <= c < old(self).dim() ==> (#[trigger] final(self).entity_grid@[c]@.contains(x)
                    <==> (old(self).entity_grid@[c]@.contains(x) && x != e)),
            no_dups(surfs@),
            forall|s: usize|
                #[trigger] surfs@.contains(s) <==> old(self).footprint_surfaces(
                    old(self).entity(e).location,
                    old(self).entity(e).size,
                ).contains(s),
    {
        let ghost w = self.width as int;
        let ghost h = self.height as int;
        let (loc, size) = match &self.entities[e] {
            Some(ent) => (ent.location, ent.size),
            None => (Point { x: 0, y: 0 }, Size { width: 0, height: 0 }),
        };
        let surfs = self.collect_footprint_surfaces(loc, size);

        let ghost pre = *self;
        let mut y = loc.y;
        while y < loc.y + size.height
            invariant
                loc.y <= y <= loc.y + size.height,
                w == self.width as int,
                h == self.height as int,
                pre.wf(),
                pre.live(e),
                loc == pre.entity(e).location,
                size == pre.entity(e).size,
                *self == (AreaState { entity_grid: self.entity_grid, ..pre }),
                self.entity_grid@.len() == pre.entity_grid@.len(),
                forall|c: int|
                    0 <= c < pre.dim() ==> no_dups((#[trigger] self.entity_grid@[c])@),
                forall|c: int, x: usize|
                    0 <= c < pre.dim() ==> (#[trigger] self.entity_grid@[c]@.contains(x) <==> (
                    pre.entity_grid@[c]@.contains(x) && !(x == e && covers(
                        pre.entity(e),
                        cell_x(w, c),
                        cell_y(w, c),
                    ) && cell_y(w, c) < y))),
            decreases loc.y + size.height - y,
        {
            let mut x = loc.x;
            while x < loc.x + size.width
                invariant
                    loc.x <= x <= loc.x + size.width,
                    loc.y <= y < loc.y + size.height,
                    w == self.width as int,
                    h == self.height as int,
                    pre.wf(),
                    pre.live(e),
                    loc == pre.entity(e).location,
                    size == pre.entity(e).size,
                    *self == (AreaState { entity_grid: self.entity_grid, ..pre }),
                    self.entity_grid@.len() == pre.entity_grid@.len(),
                    forall|c: int|
                        0 <= c < pre.dim() ==> no_dups((#[trigger] self.entity_grid@[c])@),
                    forall|c: int, x2: usize|
                        0 <= c < pre.dim() ==> (#[trigger] self.entity_grid@[c]@.contains(x2) <==> (
                        pre.entity_grid@[c]@.contains(x2) && !(x2 == e && covers(
                            pre.entity(e),
                            cell_x(w, c),
                            cell_y(w, c),
                        ) && (cell_y(w, c) < y || (cell_y(w, c) == y && cell_x(w, c) < x))))),
                decreases loc.x + size.width - x,
            {
                let c = cell_index_exec(self.width, self.height, x, y);
                proof {
                    lemma_cell_index_bijective(w, h, x as int, y as int);
                    lemma_grid_injective(w, h);
                }
                let mut lst: Vec<usize> = Vec::new();
                self.entity_grid.set_and_swap(c, &mut lst);
                remove_value(&mut lst, e);
                self.entity_grid.set(c, lst);
                x += 1;
            }
            y += 1;
        }
        proof {
            lemma_grid_injective(w, h);
        }
        surfs
    }

    /// Registers the footprint of the live entity `e` and returns the
    /// surfaces that footprint belongs to.
    #[verifier::loop_isolation(false)]
    fn add_entity_points(&mut self, e: usize) -> (surfs: Vec<usize>)
        requires
            old(self).wf_except(e),
            old(self).live(e),
        ensures
            final(self).wf(),
            *final(self) == (AreaState { entity_grid: final(self).entity_grid, ..*old(self) }),
            final(self).entity_grid@.len() == old(self).entity_grid@.len(),
            forall|c: int, x: usize|
                0 <= c < old(self).dim() ==> (#[trigger] final(self).entity_grid@[c]@.contains(x)
                    <==> (old(self).entity_grid@[c]@.contains(x) || (x == e && old(self).live_covers(e, c)))),
            no_dups(surfs@),
            forall|s: usize|
                #[trigger] surfs@.contains(s) <==> old(self).footprint_surfaces(
                    old(self).entity(e).location,
                    old(self).entity(e).size,
                ).contains(s),
    {
        let ghost w = self.width as int;
        let ghost h = self.height as int;
        let (loc, size) = match &self.entities[e] {
            Some(ent) => (ent.location, ent.size),
            None => (Point { x: 0, y: 0 }, Size { width: 0, height: 0 }),
        };
        let surfs = self.collect_footprint_surfaces(loc, size);

        let ghost pre = *self;
        let mut y = loc.y;
        while y < loc.y + size.height
            invariant
                loc.y <= y <= loc.y + size.height,
                w == self.width as int,
                h == self.height as int,
                pre.wf_except(e),
                pre.live(e),
                loc == pre.entity(e).location,
                size == pre.entity(e).size,
                *self == (AreaState { entity_grid: self.entity_grid, ..pre }),
                self.entity_grid@.len() == pre.entity_grid@.len(),
                forall|c: int|
                    0 <= c < pre.dim() ==> no_dups((#[trigger] self.entity_grid@[c])@),
                forall|c: int, x: usize|
                    0 <= c < pre.dim() ==> (#[trigger] self.entity_grid@[c]@.contains(x) <==> (
                    pre.entity_grid@[c]@.contains(x) || (x == e && covers(
                        pre.entity(e),
                        cell_x(w, c),
                        cell_y(w, c),
                    ) && cell_y(w, c) < y))),
            decreases loc.y + size.height - y,
        {
            let mut x = loc.x;
            while x < loc.x + size.width
                invariant
                    loc.x <= x <= loc.x + size.width,
                    loc.y <= y < loc.y + size.height,
                    w == self.width as int,
                    h == self.height as int,
                    pre.wf_except(e),
                    pre.live(e),
                    loc == pre.entity(e).location,
                    size == pre.entity(e).size,
                    *self == (AreaState { entity_grid: self.entity_grid, ..pre }),
                    self.entity_grid@.len() == pre.entity_grid@.len(),
                    forall|c: int|
                        0 <= c < pre.dim() ==> no_dups((#[trigger] self.entity_grid@[c])@),
                    forall|c: int, x2: usize|
                        0 <= c < pre.dim() ==> (#[trigger] self.entity_grid@[c]@.contains(x2) <==> (
                        pre.entity_grid@[c]@.contains(x2) || (x2 == e && covers(
                            pre.entity(e),
                            cell_x(w, c),
                            cell_y(w, c),
                        ) && (cell_y(w, c) < y || (cell_y(w, c) == y && cell_x(w, c) < x))))),
                decreases loc.x + size.width - x,
            {
                let c = cell_index_exec(self.width, self.height, x, y);
                proof {
                    lemma_cell_index_bijective(w, h, x as int, y as int);
                    lemma_grid_injective(w, h);
                    assert(!self.entity_grid@[c as int]@.contains(e));
                }
                let mut lst: Vec<usize> = Vec::new();
                self.entity_grid.set_and_swap(c, &mut lst);
                lst.push(e);
                self.entity_grid.set(c, lst);
                x += 1;
            }
            y += 1;
        }
        proof {
            lemma_grid_injective(w, h);
        }
        surfs
    }

    /// Collects, without repetition, every surface registered under a
    /// footprint at `loc` of the given size.
    #[verifier::loop_isolation(false)]
    fn collect_footprint_surfaces(&self, loc: Point, size: Size) -> (surfs: Vec<usize>)
        requires
            self.grids_wf(),
            0 <= size.width,
            0 <= size.height,
            0 <= loc.x,
            loc.x + size.width <= self.spec_width(),
            0 <= loc.y,
            loc.y + size.height <= self.spec_height(),
        ensures
            no_dups(surfs@),
            forall|s: usize|
                #[trigger] surfs@.contains(s) <==> self.footprint_surfaces(loc, size).contains(s),
    {
        let ghost w = self.width as int;
        let ghost h = self.height as int;
        let mut surfs: Vec<usize> = Vec::new();
        let mut y = loc.y;
        while y < loc.y + size.height
            invariant
                loc.y <= y <= loc.y + size.height,
                w == self.width as int,
                h == self.height as int,
                self.grids_wf(),
                0 <= loc.x,
                loc.x + size.width <= self.spec_width(),
                0 <= loc.y,
                loc.y + size.height <= self.spec_height(),
                no_dups(surfs@),
                forall|s: usize|
                    #[trigger] surfs@.contains(s) <==> (exists|px: int, py: int|
                        loc.x <= px < loc.x + size.width && loc.y <= py < y
                            && self.surfaces_at_cell(cell_index(w, px, py)).contains(s)),
            decreases loc.y + size.height - y,
        {
            let mut x = loc.x;
            while x < loc.x + size.width
                invariant
                    loc.x <= x <= loc.x + size.width,
                    loc.y <= y < loc.y + size.height,
                    w == self.width as int,
                    h == self.height as int,
                    self.grids_wf(),
                    0 <= loc.x,
                    loc.x + size.width <= self.spec_width(),
                    0 <= loc.y,
                    loc.y + size.height <= self.spec_height(),
                    no_dups(surfs@),
                    forall|s: usize|
                        #[trigger] surfs@.contains(s) <==> (exists|px: int, py: int|
                            loc.x <= px < loc.x + size.width && ((loc.y <= py < y) || (py == y
                                && px < x)) && self.surfaces_at_cell(
                                cell_index(w, px, py),
                            ).contains(s)),
                decreases loc.x + size.width - x,
            {
                let c = cell_index_exec(self.width, self.height, x, y);
                merge_into(&mut surfs, &self.surface_grid[c]);
                proof {
                    lemma_cell_index_bijective(w, h, x as int, y as int);
                }
                x += 1;
            }
            y += 1;
        }
        surfs
    }

    /// Whether the melee-threat relation currently records `att`
    /// threatening `def`.
    pub fn is_threatening(&self, att: usize, def: usize) -> (r: bool)
        ensures
            r == self.spec_threat_pairs().contains((att, def)),
    {
        let mut i: usize = 0;
        while i < self.threat_pairs.len()
            invariant
                i <= self.threat_pairs@.len(),
                forall|j: int| 0 <= j < i ==> #[trigger] self.threat_pairs@[j] != (att, def),
            decreases self.threat_pairs@.len() - i,
        {
            let p = self.threat_pairs[i];
            if p.0 == att && p.1 == def {
                return true;
            }
            i += 1;
        }
        false
    }

    /// Records or erases one directed threat pair.
    #[verifier::loop_isolation(false)]
    fn set_threat(&mut self, att: usize, def: usize, value: bool)
        requires
            old(self).threats_wf(),
            old(self).live(att),
            old(self).live(def),
            att != def,
            value ==> old(self).entity(att).faction.is_hostile_spec(&old(self).entity(def).faction),
        ensures
            final(self).threats_wf(),
            *final(self) == (AreaState { threat_pairs: final(self).threat_pairs, ..*old(self) }),
            forall|a: usize, b: usize|
                #[trigger] final(self).spec_threat_pairs().contains((a, b)) == (if a == att && b
                    == def {
                    value
                } else {
                    old(self).spec_threat_pairs().contains((a, b))
                }),
    {
        let present = self.is_threatening(att, def);
        if value {
            if !present {
                let ghost pre_pairs = self.threat_pairs@;
                self.threat_pairs.push((att, def));
                proof {
                    assert forall|k: int| 0 <= k < self.threat_pairs@.len() implies {
                        let p = #[trigger] self.threat_pairs@[k];
                        &&& self.live(p.0)
                        &&& self.live(p.1)
                        &&& p.0 != p.1
                        &&& self.entity(p.0).faction.is_hostile_spec(&self.entity(p.1).faction)
                    } by {
                        if k < pre_pairs.len() {
                            assert(self.threat_pairs@[k] == pre_pairs[k]);
                            assert(old(self).threat_pairs@[k] == pre_pairs[k]);
                        }
                    }
                    assert forall|j: int, k: int|
                        0 <= j < k < self.threat_pairs@.len() implies self.threat_pairs@[j]
                        != self.threat_pairs@[k] by {
                        if k == self.threat_pairs@.len() - 1 {
                            if pre_pairs.contains((att, def)) {
                                assert(false);
                            }
                            assert(pre_pairs.contains(pre_pairs[j]));
                        }
                    }
                }
            }
        } else {
            if present {
                let mut i: usize = 0;
                let ghost pre = self.threat_pairs@;
                let mut result: Vec<(usize, usize)> = Vec::new();
                while i < self.threat_pairs.len()
                    invariant
                        i <= pre.len(),
                        pre == self.threat_pairs@,
                        result@.len() <= i,
                        no_dups(pre) ==> no_dups(result@),
                        forall|p: (usize, usize)|
                            #[trigger] result@.contains(p) <==> (pre.take(i as int).contains(p)
                                && p != (att, def)),
                    decreases pre.len() - i,
                {
                    let ghost prefix = pre.take(i as int);
                    let p = self.threat_pairs[i];
                    if !(p.0 == att && p.1 == def) {
                        let ghost r0 = result@;
                        result.push(p);
                        proof {
                            assert forall|q: (usize, usize)| #[trigger]
                                result@.contains(q) implies (r0.contains(q) || q == p) by {
                                let j = choose|j: int|
                                    0 <= j < result@.len() && (#[trigger] result@[j]) == q;
                                if j < r0.len() {
                                    assert(r0[j] == q);
                                }
                            }
                            if no_dups(pre) {
                                assert forall|j: int, k: int|
                                    0 <= j < k < result@.len() implies result@[j] != result@[k] by {
                                    if k < result@.len() - 1 {
                                        assert(r0[j] != r0[k]);
                                    } else {
                                        assert(result@[k] == p);
                                        if r0.contains(p) {
                                            assert(prefix.contains(p));
                                            let m = choose|m: int|
                                                0 <= m < prefix.len() && (#[trigger] prefix[m])
                                                    == p;
                                            assert(pre[m] == p && pre[i as int] == p);
                                            assert(false);
                                        }
                                        assert(result@[j] != p);
                                    }
                                }
                            }
                        }
                    }
                    proof {
                        assert(pre.take(i + 1) =~= prefix.push(pre[i as int]));
                    }
                    i += 1;
                }
                proof {
                    assert(pre.take(pre.len() as int) =~= pre);
                }
                self.threat_pairs = result;
                proof {
                    assert forall|k: int| 0 <= k < self.threat_pairs@.len() implies {
                        let p = #[trigger] self.threat_pairs@[k];
                        &&& self.live(p.0)
                        &&& self.live(p.1)
                        &&& p.0 != p.1
                        &&& self.entity(p.0).faction.is_hostile_spec(&self.entity(p.1).faction)
                    } by {
                        let p = self.threat_pairs@[k];
                        assert(self.threat_pairs@.contains(p));
                        assert(pre.contains(p));
                        let m = choose|m: int| 0 <= m < pre.len() && (#[trigger] pre[m]) == p;
                        assert(old(self).threat_pairs@[m] == p);
                    }
                }
            }
        }
    }

    /// Recomputes the melee-threat relationships between `mover` and every
    /// other live entity hostile to it, from the current positions.  With
    /// `removal` set, every pair involving `mover` is erased instead.
    #[verifier::loop_isolation(false)]
    fn compute_threatened(&mut self, mover: usize, removal: bool)
        requires
            old(self).wf(),
            old(self).live(mover),
        ensures
            final(self).wf(),
            *final(self) == (AreaState { threat_pairs: final(self).threat_pairs, ..*old(self) }),
            threats_after(old(self).spec_threat_pairs(), final(self), mover, removal),
    {
        let ghost pre = *self;
        let mover_ent = match &self.entities[mover] {
            Some(ent) => *ent,
            None => EntityState {
                location: Point { x: 0, y: 0 },
                size: Size { width: 1, height: 1 },
                party_member: false,
                faction: Faction::Neutral,
                melee: false,
                attack_disabled: false,
                dead: false,
                reach: 0,
            },
        };
        let n = self.entity_list.len();
        let mut k: usize = 0;
        while k < n
            invariant
                k <= n,
                n == self.entity_list@.len(),
                self.wf(),
                self.live(mover),
                pre.wf(),
                pre.live(mover),
                mover_ent == pre.entity(mover),
                *self == (AreaState { threat_pairs: self.threat_pairs, ..pre }),
                forall|a: usize, b: usize|
                    #[trigger] self.spec_threat_pairs().contains((a, b)) == (if a == mover && b
                        != mover && pre.live(b) && pre.entity(mover).faction.is_hostile_spec(
                        &pre.entity(b).faction,
                    ) && pre.spec_entity_list().take(k as int).contains(b) {
                        !removal && is_threat_spec(pre.entity(mover), pre.entity(b))
                    } else if b == mover && a != mover && pre.live(a) && pre.entity(
                        mover,
                    ).faction.is_hostile_spec(&pre.entity(a).faction)
                        && pre.spec_entity_list().take(k as int).contains(a) {
                        !removal && is_threat_spec(pre.entity(a), pre.entity(mover))
                    } else {
                        pre.spec_threat_pairs().contains((a, b))
                    }),
            decreases n - k,
        {
            let ghost prefix = pre.spec_entity_list().take(k as int);
            let e = self.entity_list[k];
            proof {
                assert(self.entity_list@[k as int] == e);
                assert(self.entity_list@.contains(e));
                assert(self.live(e));
            }
            if e != mover {
                let e_ent = match &self.entities[e] {
                    Some(ent) => *ent,
                    None => mover_ent,
                };
                if mover_ent.faction.is_hostile(&e_ent.faction) {
                    let t1 = !removal && is_threat(&mover_ent, &e_ent);
                    self.set_threat(mover, e, t1);
                    let t2 = !removal && is_threat(&e_ent, &mover_ent);
                    self.set_threat(e, mover, t2);
                }
            }
            proof {
                assert(pre.spec_entity_list().take(k + 1) =~= prefix.push(
                    pre.spec_entity_list()[k as int],
                ));
            }
            k += 1;
        }
        proof {
            assert(pre.spec_entity_list().take(n as int) =~= pre.spec_entity_list());
        }
    }
}

impl AreaState {
    /// The lowest free entity slot, the arena and the per-member
    /// visibility store grown in parallel where none is free.
    fn find_entity_slot(&mut self) -> (e: usize)
        requires
            old(self).grids_wf(),
        ensures
            final(self).grids_wf(),
            e < final(self).entities@.len(),
            final(self).entities@[e as int] is None,
            final(self).member_vis@[e as int]@.len() == final(self).dim(),
            ({
                let fin = *final(self);
                let pre = *old(self);
                ||| (e < pre.entities@.len() && fin.entities@ == pre.entities@ && fin.member_vis@
                    == pre.member_vis@)
                ||| (e == pre.entities@.len() && fin.entities@ == pre.entities@.push(
                    None::<EntityState>,
                ) && fin.member_vis@.len() == pre.member_vis@.len() + 1 && (forall|j: int|
                    0 <= j < pre.member_vis@.len() ==> #[trigger] fin.member_vis@[j]
                        == pre.member_vis@[j]))
            }),
            *final(self) == (AreaState {
                entities: final(self).entities,
                member_vis: final(self).member_vis,
                ..*old(self)
            }),
    {
        let mut index: usize = 0;
        while index < self.entities.len()
            invariant
                index <= self.entities@.len(),
                forall|j: int| 0 <= j < index ==> self.entities@[j] is Some,
                self.grids_wf(),
                *self == *old(self),
            decreases self.entities@.len() - index,
        {
            if self.entities[index].is_none() {
                return index;
            }
            index += 1;
        }
        let dim = (self.width * self.height) as usize;
        self.entities.push(None);
        self.member_vis.push(filled_vec(dim, false));
        self.entities.len() - 1
    }

    /// A copy of the record of the live entity `e`.
    pub fn get_entity(&self, e: usize) -> (r: EntityState)
        requires
            self.wf(),
            self.live(e),
        ensures
            r == self.entity(e),
    {
        match &self.entities[e] {
            Some(ent) => *ent,
            None => EntityState {
                location: Point { x: 0, y: 0 },
                size: Size { width: 1, height: 1 },
                party_member: false,
                faction: Faction::Neutral,
                melee: false,
                attack_disabled: false,
                dead: false,
                reach: 0,
            },
        }
    }

    /// The live entity handles, in registration order.
    pub fn entity_iter(&self) -> (r: &Vec<usize>)
        ensures
            r@ == self.spec_entity_list(),
    {
        &self.entity_list
    }

    /// The first entity handle occupying `(x, y)`, if any.
    pub fn get_entity_at(&self, x: i32, y: i32) -> (r: Option<usize>)
        requires
            self.wf(),
        ensures
            r == (if valid_coords(self.spec_width() as int, self.spec_height() as int, x as int, y as int) {
                let occ = self.occupants_at_cell(
                    cell_index(self.spec_width() as int, x as int, y as int),
                );
                if occ.len() == 0 {
                    None::<usize>
                } else {
                    Some(occ[0])
                }
            } else {
                None::<usize>
            }),
    {
        if x < 0 || y < 0 || x >= self.width || y >= self.height {
            return None;
        }
        let c = cell_index_exec(self.width, self.height, x, y);
        if self.entity_grid[c].len() == 0 {
            None
        } else {
            Some(self.entity_grid[c][0])
        }
    }

    /// Registers the entity and computes its initial surface membership
    /// and threat relationships.  The location is not required to be
    /// passable, matching the tolerant load path; only a footprint off
    /// the grid or a malformed record is rejected.
    pub fn add_entity(&mut self, ent: EntityState) -> (r: Result<(usize, Vec<usize>), AreaError>)
        requires
            old(self).wf(),
        ensures
            final(self).wf(),
            same_config(old(self), final(self)),
            same_prop_state(old(self), final(self)),
            same_surface_state(old(self), final(self)),
            same_zone_state(old(self), final(self)),
            same_fog_state(old(self), final(self)),
            r is Ok <==> (ent.wf_spec() && old(self).ent_in_bounds(ent)),
            r is Err ==> same_entity_state(old(self), final(self)),
            r matches Ok((e, surfs)) ==> ({
                &&& !old(self).live(e)
                &&& final(self).live(e)
                &&& final(self).entity(e) == ent
                &&& ((e < old(self).spec_entities().len() && old(self).spec_entities()[e as int]
                    is None && final(self).spec_entities() == old(self).spec_entities().update(
                    e as int,
                    Some(ent),
                )) || (e == old(self).spec_entities().len() && final(self).spec_entities() == old(self).spec_entities().push(Some(ent))))
                &&& final(self).spec_entity_list() == old(self).spec_entity_list().push(e)
                &&& no_dups(surfs@)
                &&& (forall|s: usize|
                    #[trigger] surfs@.contains(s) <==> old(self).footprint_surfaces(
                        ent.location,
                        ent.size,
                    ).contains(s))
                &&& threats_after(old(self).spec_threat_pairs(), final(self), e, false)
            }),
    {
        let size_ok = 1 <= ent.size.width && ent.size.width <= 0x7FFF && 1 <= ent.size.height
            && ent.size.height <= 0x7FFF && 0 <= ent.reach && ent.reach <= 0x7FFF;
        let bounds_ok = size_ok && 0 <= ent.location.x && ent.location.x <= self.width
            - ent.size.width && 0 <= ent.location.y && ent.location.y <= self.height
            - ent.size.height;
        if !bounds_ok {
            return Err(AreaError::InvalidData);
        }

        let e = self.find_entity_slot();
        self.entities.set(e, Some(ent));
        self.entity_list.push(e);
        proof {
            assert forall|x: usize| #[trigger] self.entity_list@.contains(x) implies self.live(
                x,
            ) by {
                if x != e {
                    assert(old(self).entity_list@.contains(x));
                }
            }
            assert forall|x: usize| self.live(x) implies self.entity_list@.contains(x) by {
                if x != e {
                    assert(old(self).live(x));
                    assert(old(self).entity_list@.contains(x));
                }
                assert(self.entity_list@[self.entity_list@.len() - 1] == e);
            }
            assert forall|j: int, k: int|
                0 <= j < k < self.entity_list@.len() implies self.entity_list@[j]
                != self.entity_list@[k] by {
                if k < self.entity_list@.len() - 1 {
                    assert(old(self).entity_list@[j] == self.entity_list@[j]);
                } else {
                    assert(self.entity_list@[k] == e);
                    if old(self).entity_list@.contains(self.entity_list@[j]) {
                        assert(old(self).live(self.entity_list@[j]));
                    }
                    assert(old(self).entity_list@[j] == self.entity_list@[j]);
                }
            }
        }
        let surfs = self.add_entity_points(e);
        self.compute_threatened(e, false);
        Ok((e, surfs))
    }

    /// Deregisters the entity's footprint, erases its threat
    /// relationships and frees its arena slot, returning the surfaces its
    /// footprint belonged to.  A dangling handle is rejected as invalid
    /// data.
    pub fn remove_entity(&mut self, index: usize) -> (r: Result<Vec<usize>, AreaError>)
        requires
            old(self).wf(),
        ensures
            final(self).wf(),
            same_config(old(self), final(self)),
            same_prop_state(old(self), final(self)),
            same_surface_state(old(self), final(self)),
            same_zone_state(old(self), final(self)),
            same_fog_state(old(self), final(self)),
            r is Ok <==> old(self).live(index),
            r is Err ==> same_entity_state(old(self), final(self)),
            r matches Ok(surfs) ==> ({
                &&& final(self).spec_entities() == old(self).spec_entities().update(
                    index as int,
                    None::<EntityState>,
                )
                &&& (forall|x: usize|
                    #[trigger] final(self).spec_entity_list().contains(x) <==> (old(self).spec_entity_list().contains(x) && x != index))
                &&& (forall|c: int, x: usize|
                    0 <= c < old(self).dim() ==> (#[trigger] final(self).occupants_at_cell(
                        c,
                    ).contains(x) <==> (old(self).occupants_at_cell(c).contains(x) && x != index)))
                &&& no_dups(surfs@)
                &&& (forall|s: usize|
                    #[trigger] surfs@.contains(s) <==> old(self).footprint_surfaces(
                        old(self).entity(index).location,
                        old(self).entity(index).size,
                    ).contains(s))
                &&& (forall|a: usize, b: usize|
                    #[trigger] final(self).spec_threat_pairs().contains((a, b)) <==> (old(self).spec_threat_pairs().contains((a, b)) && a != index && b != index))
                &&& (forall|e2: int|
                    0 <= e2 < old(self).spec_entities().len() ==> #[trigger] final(self).spec_member_vis(e2) == old(self).spec_member_vis(e2))
            }),
    {
        if index >= self.entities.len() || self.entities[index].is_none() {
            return Err(AreaError::InvalidData);
        }
        self.compute_threatened(index, true);
        proof {
            assert forall|a: usize, b: usize| #[trigger]
                self.spec_threat_pairs().contains((a, b)) implies (old(self).spec_threat_pairs().contains((a, b)) && a != index && b != index) by {
                if old(self).spec_threat_pairs().contains((a, b)) {
                    let k = choose|k: int|
                        0 <= k < old(self).spec_threat_pairs().len() && (#[trigger] old(self).spec_threat_pairs()[k]) == (a, b);
                }
            }
            assert forall|a: usize, b: usize|
                (old(self).spec_threat_pairs().contains((a, b)) && a != index && b
                    != index) implies #[trigger] self.spec_threat_pairs().contains((a, b)) by {}
        }
        let surfs = self.clear_entity_points(index);
        remove_value(&mut self.entity_list, index);
        self.entities.set(index, None);
        proof {
            assert forall|c: int, x: usize|
                0 <= c < self.dim() implies (#[trigger] self.entity_grid@[c]@.contains(x) <==> (
            self.live_covers(x, c))) by {
                if self.entity_grid@[c]@.contains(x) {
                    assert(x != index && old(self).live_covers(x, c));
                    assert(self.entities@[x as int] == old(self).entities@[x as int]);
                } else {
                    if self.live_covers(x, c) {
                        assert(x != index);
                        assert(old(self).live_covers(x, c));
                    }
                }
            }
            assert forall|e2: int|
                0 <= e2 < self.entities@.len() && (#[trigger] self.entities@[e2]) is Some implies (
            self.entities@[e2]->Some_0.wf_spec() && self.ent_in_bounds(
                self.entities@[e2]->Some_0,
            )) by {
                assert(old(self).entities@[e2] == self.entities@[e2]);
            }
            assert forall|x: usize| #[trigger] self.entity_list@.contains(x) implies self.live(
                x,
            ) by {
                assert(old(self).entity_list@.contains(x) && x != index);
                assert(self.entities@[x as int] == old(self).entities@[x as int]);
            }
            assert forall|x: usize| self.live(x) implies self.entity_list@.contains(x) by {
                assert(x != index);
                assert(old(self).live(x));
            }
            assert forall|k: int| 0 <= k < self.threat_pairs@.len() implies {
                let p = #[trigger] self.threat_pairs@[k];
                &&& self.live(p.0)
                &&& self.live(p.1)
                &&& p.0 != p.1
                &&& self.entity(p.0).faction.is_hostile_spec(&self.entity(p.1).faction)
            } by {
                let p = self.threat_pairs@[k];
                assert(self.spec_threat_pairs().contains(p));
                assert(p.0 != index && p.1 != index);
                assert(self.entities@[p.0 as int] == old(self).entities@[p.0 as int]);
                assert(self.entities@[p.1 as int] == old(self).entities@[p.1 as int]);
                let m = choose|m: int|
                    0 <= m < old(self).spec_threat_pairs().len() && (#[trigger] old(self).spec_threat_pairs()[m]) == p;
            }
        }
        Ok(surfs)
    }
}

impl AreaState {
    /// Sets the partial-redraw hint unless a redraw is already pending.
    fn pc_vis_partial_redraw(&mut self, x: i32, y: i32)
        ensures
            *final(self) == (AreaState { pc_vis_redraw: final(self).pc_vis_redraw, ..*old(self) }),
            final(self).spec_redraw() == (if old(self).spec_redraw() == PCVisRedraw::Not {
                PCVisRedraw::Partial { delta_x: x, delta_y: y }
            } else {
                old(self).spec_redraw()
            }),
    {
        match self.pc_vis_redraw {
            PCVisRedraw::Not => {
                self.pc_vis_redraw = PCVisRedraw::Partial { delta_x: x, delta_y: y };
            },
            _ => (),
        }
    }

    /// Requires a full visibility redraw.
    pub fn pc_vis_full_redraw(&mut self)
        ensures
            same_config(old(self), final(self)),
            same_entity_state(old(self), final(self)),
            same_prop_state(old(self), final(self)),
            same_surface_state(old(self), final(self)),
            same_zone_state(old(self), final(self)),
            final(self).spec_visible() == old(self).spec_visible(),
            final(self).spec_explored() == old(self).spec_explored(),
            final(self).spec_redraw() == PCVisRedraw::Full,
            old(self).wf() ==> final(self).wf(),
    {
        self.pc_vis_redraw = PCVisRedraw::Full;
    }

    /// Consumes the outstanding redraw requirement: returns it and resets
    /// it to none.
    pub fn take_pc_vis(&mut self) -> (r: PCVisRedraw)
        ensures
            same_config(old(self), final(self)),
            same_entity_state(old(self), final(self)),
            same_prop_state(old(self), final(self)),
            same_surface_state(old(self), final(self)),
            same_zone_state(old(self), final(self)),
            final(self).spec_visible() == old(self).spec_visible(),
            final(self).spec_explored() == old(self).spec_explored(),
            r == old(self).spec_redraw(),
            final(self).spec_redraw() == PCVisRedraw::Not,
            old(self).wf() ==> final(self).wf(),
    {
        let result = self.pc_vis_redraw;
        self.pc_vis_redraw = PCVisRedraw::Not;
        result
    }

    /// What the trigger evaluation of one completed party move yields: the
    /// enabled, unfired trigger watching the mover's new anchor cell, if
    /// any.
    pub open spec fn due_trigger(&self, e: usize) -> Option<usize> {
        let c = cell_index(
            self.spec_width() as int,
            self.entity(e).location.x as int,
            self.entity(e).location.y as int,
        );
        match self.trigger_at_cell(c) {
            Some(t) => {
                let st = self.spec_triggers()[t as int];
                if st.enabled && !st.fired {
                    Some(t)
                } else {
                    None
                }
            },
            None => None,
        }
    }

    /// Fires the enabled, unfired trigger under the entity's anchor cell,
    /// at most once per trigger.
    fn check_trigger_grid(&mut self, e: usize) -> (r: Option<usize>)
        requires
            old(self).wf(),
            old(self).live(e),
        ensures
            final(self).wf(),
            *final(self) == (AreaState { triggers: final(self).triggers, ..*old(self) }),
            r == old(self).due_trigger(e),
            r matches Some(t) ==> (t < old(self).spec_triggers().len() && final(self).spec_triggers() == old(self).spec_triggers().update(
                t as int,
                TriggerState { fired: true, enabled: old(self).spec_triggers()[t as int].enabled },
            )),
            r is None ==> final(self).spec_triggers() == old(self).spec_triggers(),
    {
        let (lx, ly) = match &self.entities[e] {
            Some(ent) => (ent.location.x, ent.location.y),
            None => (0, 0),
        };
        let c = cell_index_exec(self.width, self.height, lx, ly);
        let index = match self.trigger_grid[c] {
            None => {
                return None;
            },
            Some(index) => index,
        };
        let trig = self.triggers[index];
        if !trig.enabled || trig.fired {
            return None;
        }
        self.triggers.set(index, TriggerState { fired: true, enabled: trig.enabled });
        Some(index)
    }

    /// The move protocol: atomically re-registers the entity's footprint
    /// at `(x, y)`, recomputes its surface membership and melee threats,
    /// and, for a party member, notes the redraw and fires at most one
    /// entered trigger.  An out-of-grid destination or a move to the same
    /// position changes nothing and yields `None`.
    pub fn move_entity(&mut self, index: usize, x: i32, y: i32) -> (r: Option<MoveEvents>)
        requires
            old(self).wf(),
            old(self).live(index),
        ensures
            final(self).wf(),
            same_config(old(self), final(self)),
            same_prop_state(old(self), final(self)),
            same_surface_state(old(self), final(self)),
            final(self).spec_visible() == old(self).spec_visible(),
            final(self).spec_explored() == old(self).spec_explored(),
            forall|c: int|
                0 <= c < old(self).dim() ==> #[trigger] final(self).trigger_at_cell(c) == old(self).trigger_at_cell(c),
            forall|c: int|
                0 <= c < old(self).dim() ==> #[trigger] final(self).transition_at_cell(c) == old(self).transition_at_cell(c),
            final(self).spec_entity_list() == old(self).spec_entity_list(),
            forall|e2: int|
                0 <= e2 < old(self).spec_entities().len() ==> #[trigger] final(self).spec_member_vis(e2) == old(self).spec_member_vis(e2),
            r is None <==> !({
                let ent = old(self).entity(index);
                &&& 0 <= x
                &&& x + ent.size.width <= old(self).spec_width()
                &&& 0 <= y
                &&& y + ent.size.height <= old(self).spec_height()
                &&& !(x == ent.location.x && y == ent.location.y)
            }),
            r is None ==> (same_entity_state(old(self), final(self)) && final(self).spec_triggers()
                == old(self).spec_triggers() && final(self).spec_redraw() == old(self).spec_redraw()),
            r matches Some(ev) ==> ({
                let ent = old(self).entity(index);
                let moved = EntityState { location: Point { x, y }, ..ent };
                let old_set = old(self).footprint_surfaces(ent.location, ent.size);
                let new_set = old(self).footprint_surfaces(Point { x, y }, ent.size);
                &&& final(self).spec_entities() == old(self).spec_entities().update(
                    index as int,
                    Some(moved),
                )
                &&& no_dups(ev.left@)
                &&& no_dups(ev.entered@)
                &&& no_dups(ev.moved_within@)
                &&& (forall|s: usize|
                    #[trigger] ev.left@.contains(s) <==> (old_set.contains(s)
                        && !new_set.contains(s)))
                &&& (forall|s: usize|
                    #[trigger] ev.entered@.contains(s) <==> (new_set.contains(s)
                        && !old_set.contains(s)))
                &&& (forall|s: usize|
                    #[trigger] ev.moved_within@.contains(s) <==> (old_set.contains(s)
                        && new_set.contains(s)))
                &&& (forall|s: usize| !(ev.left@.contains(s) && #[trigger] ev.entered@.contains(s)))
                &&& (forall|s: usize|
                    !(ev.left@.contains(s) && #[trigger] ev.moved_within@.contains(s)))
                &&& (forall|s: usize|
                    !(ev.entered@.contains(s) && #[trigger] ev.moved_within@.contains(s)))
                &&& threats_after(old(self).spec_threat_pairs(), final(self), index, false)
                &&& (ent.party_member ==> final(self).spec_redraw() == (if old(self).spec_redraw()
                    == PCVisRedraw::Not {
                    PCVisRedraw::Partial {
                        delta_x: (ent.location.x - x) as i32,
                        delta_y: (ent.location.y - y) as i32,
                    }
                } else {
                    old(self).spec_redraw()
                }))
                &&& (ent.party_member ==> (match old(self).trigger_at_cell(
                    cell_index(old(self).spec_width() as int, x as int, y as int),
                ) {
                    Some(t) => if old(self).spec_triggers()[t as int].enabled && !old(self).spec_triggers()[t as int].fired {
                        ev.fired_trigger == Some(t) && final(self).spec_triggers() == old(self).spec_triggers().update(
                            t as int,
                            TriggerState {
                                fired: true,
                                enabled: old(self).spec_triggers()[t as int].enabled,
                            },
                        )
                    } else {
                        ev.fired_trigger is None && final(self).spec_triggers() == old(self).spec_triggers()
                    },
                    None => ev.fired_trigger is None && final(self).spec_triggers() == old(self).spec_triggers(),
                }))
                &&& (!ent.party_member ==> final(self).spec_redraw() == old(self).spec_redraw()
                    && ev.fired_trigger is None && final(self).spec_triggers() == old(self).spec_triggers())
            }),
    {
        let ent = match &self.entities[index] {
            Some(ent) => *ent,
            None => EntityState {
                location: Point { x: 0, y: 0 },
                size: Size { width: 1, height: 1 },
                party_member: false,
                faction: Faction::Neutral,
                melee: false,
                attack_disabled: false,
                dead: false,
                reach: 0,
            },
        };
        if x < 0 || y < 0 || x > self.width - ent.size.width || y > self.height - ent.size.height {
            return None;
        }
        if x == ent.location.x && y == ent.location.y {
            return None;
        }

        let old_surfaces = self.clear_entity_points(index);
        self.entities.set(index, Some(EntityState { location: Point { x, y }, ..ent }));
        let new_surfaces = self.add_entity_points(index);
        let ghost before_threats = *self;
        self.compute_threatened(index, false);
        let ghost after_threats = *self;

        let left = filter_membership(&old_surfaces, &new_surfaces, false);
        let entered = filter_membership(&new_surfaces, &old_surfaces, false);
        let moved_within = filter_membership(&old_surfaces, &new_surfaces, true);

        let mut fired_trigger: Option<usize> = None;
        if ent.party_member {
            self.pc_vis_partial_redraw(ent.location.x - x, ent.location.y - y);
            let ghost pre_check = *self;
            fired_trigger = self.check_trigger_grid(index);
            proof {
                assert(pre_check.entity(index).location == (Point { x, y }));
                assert(pre_check.due_trigger(index) == (match old(self).trigger_at_cell(
                    cell_index(old(self).spec_width() as int, x as int, y as int),
                ) {
                    Some(t) => if old(self).spec_triggers()[t as int].enabled && !old(self).spec_triggers()[t as int].fired {
                        Some(t)
                    } else {
                        None::<usize>
                    },
                    None => None::<usize>,
                }));
            }
        }
        proof {
            let old_set = old(self).footprint_surfaces(ent.location, ent.size);
            let new_set = old(self).footprint_surfaces(Point { x, y }, ent.size);
            assert(forall|s: usize| #[trigger] old_surfaces@.contains(s) <==> old_set.contains(s));
            assert(forall|s: usize| #[trigger] new_surfaces@.contains(s) <==> new_set.contains(s));
            assert(forall|s: usize|
                #[trigger] left@.contains(s) <==> (old_set.contains(s) && !new_set.contains(s)));
            assert(self.spec_entities() == old(self).spec_entities().update(
                index as int,
                Some(EntityState { location: Point { x, y }, ..ent }),
            ));
            assert(before_threats.spec_threat_pairs() == old(self).spec_threat_pairs());
            assert(threats_after(old(self).spec_threat_pairs(), &after_threats, index, false));
            assert(self.spec_threat_pairs() == after_threats.spec_threat_pairs());
            assert(self.spec_entities() == after_threats.spec_entities());
            assert forall|a: usize, b: usize|
                #[trigger] self.spec_threat_pairs().contains((a, b)) == (if a == index && b != index
                && self.live(b) && self.live(index) && self.entity(index).faction.is_hostile_spec(
                &self.entity(b).faction,
            ) {
                is_threat_spec(self.entity(index), self.entity(b))
            } else if b == index && a != index && self.live(a) && self.live(index) && self.entity(
                index,
            ).faction.is_hostile_spec(&self.entity(a).faction) {
                is_threat_spec(self.entity(a), self.entity(index))
            } else {
                old(self).spec_threat_pairs().contains((a, b))
            }) by {
                assert(after_threats.spec_threat_pairs().contains((a, b)) == (if a == index && b
                    != index && after_threats.live(b) && after_threats.live(index)
                    && after_threats.entity(index).faction.is_hostile_spec(
                    &after_threats.entity(b).faction,
                ) {
                    is_threat_spec(after_threats.entity(index), after_threats.entity(b))
                } else if b == index && a != index && after_threats.live(a) && after_threats.live(
                    index,
                ) && after_threats.entity(index).faction.is_hostile_spec(
                    &after_threats.entity(a).faction,
                ) {
                    is_threat_spec(after_threats.entity(a), after_threats.entity(index))
                } else {
                    old(self).spec_threat_pairs().contains((a, b))
                }));
            }
            assert(threats_after(old(self).spec_threat_pairs(), self, index, false));
        }
        Some(MoveEvents { left, entered, moved_within, fired_trigger })
    }
}

/// The elements of `src` whose presence in `other` matches
/// `keep_present`, kept in order.
fn filter_membership(src: &Vec<usize>, other: &Vec<usize>, keep_present: bool) -> (r: Vec<usize>)
    requires
        no_dups(src@),
    ensures
        no_dups(r@),
        forall|s: usize|
            #[trigger] r@.contains(s) <==> (src@.contains(s) && other@.contains(s) == keep_present),
{
    let mut r: Vec<usize> = Vec::new();
    let mut i: usize = 0;
    let ghost mut origin: Seq<int> = Seq::empty();
    while i < src.len()
        invariant
            i <= src@.len(),
            no_dups(src@),
            origin.len() == r@.len(),
            forall|j: int|
                0 <= j < r@.len() ==> 0 <= #[trigger] origin[j] < i && src@[origin[j]] == r@[j],
            forall|j: int, k: int| 0 <= j < k < r@.len() ==> origin[j] < origin[k],
            forall|s: usize|
                #[trigger] r@.contains(s) <==> (src@.take(i as int).contains(s) && other@.contains(
                    s,
                ) == keep_present),
        decreases src@.len() - i,
    {
        let ghost prefix = src@.take(i as int);
        let v = src[i];
        if contains_value(other, v) == keep_present {
            r.push(v);
            proof {
                origin = origin.push(i as int);
            }
        }
        proof {
            assert(src@.take(i + 1) =~= prefix.push(src@[i as int]));
        }
        i += 1;
    }
    proof {
        assert(src@.take(src@.len() as int) =~= src@);
        assert forall|j: int, k: int| 0 <= j < k < r@.len() implies r@[j] != r@[k] by {
            assert(origin[j] < origin[k]);
            assert(src@[origin[j]] == r@[j] && src@[origin[k]] == r@[k]);
        }
    }
    r
}

impl AreaState {
    /// The entity handles standing on any of the given points; points off
    /// the grid are ignored.
    pub fn entities_with_points(&self, points: &Vec<Point>) -> (r: Vec<usize>)
        requires
            self.wf(),
        ensures
            no_dups(r@),
            forall|e: usize|
                #[trigger] r@.contains(e) <==> (exists|k: int|
                    0 <= k < points@.len() && valid_coords(
                        self.spec_width() as int,
                        self.spec_height() as int,
                        (#[trigger] points@[k]).x as int,
                        points@[k].y as int,
                    ) && self.occupants_at_cell(
                        cell_index(self.spec_width() as int, points@[k].x as int, points@[k].y as int),
                    ).contains(e)),
    {
        let ghost w = self.spec_width() as int;
        let ghost h = self.spec_height() as int;
        let mut r: Vec<usize> = Vec::new();
        let mut k: usize = 0;
        while k < points.len()
            invariant
                k <= points@.len(),
                self.wf(),
                w == self.spec_width() as int,
                h == self.spec_height() as int,
                no_dups(r@),
                forall|e: usize|
                    #[trigger] r@.contains(e) <==> (exists|k2: int|
                        0 <= k2 < k && valid_coords(
                            w,
                            h,
                            (#[trigger] points@[k2]).x as int,
                            points@[k2].y as int,
                        ) && self.occupants_at_cell(
                            cell_index(w, points@[k2].x as int, points@[k2].y as int),
                        ).contains(e)),
            decreases points@.len() - k,
        {
            let p = points[k];
            if p.x >= 0 && p.y >= 0 && p.x < self.width && p.y < self.height {
                let c = cell_index_exec(self.width, self.height, p.x, p.y);
                merge_into(&mut r, &self.entity_grid[c]);
            }
            k += 1;
        }
        r
    }

    /// Registers the surface at every valid given point and returns the
    /// entities standing on those points.
    pub fn add_surface(&mut self, index: usize, points: &Vec<Point>) -> (r: Vec<usize>)
        requires
            old(self).wf(),
        ensures
            final(self).wf(),
            same_config(old(self), final(self)),
            same_entity_state(old(self), final(self)),
            same_prop_state(old(self), final(self)),
            same_zone_state(old(self), final(self)),
            same_fog_state(old(self), final(self)),
            final(self).spec_surfaces() == old(self).spec_surfaces().push(index),
            forall|c: int, s: usize|
                0 <= c < old(self).dim() ==> (#[trigger] final(self).surfaces_at_cell(c).contains(s)
                    <==> (old(self).surfaces_at_cell(c).contains(s) || (s == index && (exists|
                k: int,
                |
                    0 <= k < points@.len() && valid_coords(
                        old(self).spec_width() as int,
                        old(self).spec_height() as int,
                        (#[trigger] points@[k]).x as int,
                        points@[k].y as int,
                    ) && cell_index(
                        old(self).spec_width() as int,
                        points@[k].x as int,
                        points@[k].y as int,
                    ) == c)))),
            no_dups(r@),
            forall|e: usize|
                #[trigger] r@.contains(e) <==> (exists|k: int|
                    0 <= k < points@.len() && valid_coords(
                        old(self).spec_width() as int,
                        old(self).spec_height() as int,
                        (#[trigger] points@[k]).x as int,
                        points@[k].y as int,
                    ) && old(self).occupants_at_cell(
                        cell_index(
                            old(self).spec_width() as int,
                            points@[k].x as int,
                            points@[k].y as int,
                        ),
                    ).contains(e)),
    {
        let ghost w = self.spec_width() as int;
        let ghost h = self.spec_height() as int;
        let entities = self.entities_with_points(points);
        self.surfaces.push(index);
        let ghost pre = *self;
        let mut k: usize = 0;
        while k < points.len()
            invariant
                k <= points@.len(),
                w == self.spec_width() as int,
                h == self.spec_height() as int,
                pre.wf(),
                *self == (AreaState { surface_grid: self.surface_grid, ..pre }),
                self.surface_grid@.len() == pre.surface_grid@.len(),
                forall|c: int, s: usize|
                    0 <= c < pre.dim() ==> (#[trigger] self.surface_grid@[c]@.contains(s) <==> (
                    pre.surface_grid@[c]@.contains(s) || (s == index && (exists|k2: int|
                        0 <= k2 < k && valid_coords(
                            w,
                            h,
                            (#[trigger] points@[k2]).x as int,
                            points@[k2].y as int,
                        ) && cell_index(w, points@[k2].x as int, points@[k2].y as int) == c)))),
            decreases points@.len() - k,
        {
            let p = points[k];
            if p.x >= 0 && p.y >= 0 && p.x < self.width && p.y < self.height {
                let c = cell_index_exec(self.width, self.height, p.x, p.y);
                proof {
                    lemma_cell_index_bijective(w, h, p.x as int, p.y as int);
                    lemma_grid_injective(w, h);
                }
                let mut lst: Vec<usize> = Vec::new();
                self.surface_grid.set_and_swap(c, &mut lst);
                lst.push(index);
                self.surface_grid.set(c, lst);
            }
            k += 1;
        }
        entities
    }

    /// Removes the surface's registration at every valid given point and
    /// from the surface list, and returns the entities standing on those
    /// points.
    pub fn remove_surface(&mut self, index: usize, points: &Vec<Point>) -> (r: Vec<usize>)
        requires
            old(self).wf(),
        ensures
            final(self).wf(),
            same_config(old(self), final(self)),
            same_entity_state(old(self), final(self)),
            same_prop_state(old(self), final(self)),
            same_zone_state(old(self), final(self)),
            same_fog_state(old(self), final(self)),
            forall|x: usize|
                #[trigger] final(self).spec_surfaces().contains(x) <==> (old(self).spec_surfaces().contains(x) && x != index),
            forall|c: int, s: usize|
                0 <= c < old(self).dim() ==> (#[trigger] final(self).surfaces_at_cell(c).contains(s)
                    <==> (old(self).surfaces_at_cell(c).contains(s) && !(s == index && (exists|
                k: int,
                |
                    0 <= k < points@.len() && valid_coords(
                        old(self).spec_width() as int,
                        old(self).spec_height() as int,
                        (#[trigger] points@[k]).x as int,
                        points@[k].y as int,
                    ) && cell_index(
                        old(self).spec_width() as int,
                        points@[k].x as int,
                        points@[k].y as int,
                    ) == c)))),
            no_dups(r@),
            forall|e: usize|
                #[trigger] r@.contains(e) <==> (exists|k: int|
                    0 <= k < points@.len() && valid_coords(
                        old(self).spec_width() as int,
                        old(self).spec_height() as int,
                        (#[trigger] points@[k]).x as int,
                        points@[k].y as int,
                    ) && old(self).occupants_at_cell(
                        cell_index(
                            old(self).spec_width() as int,
                            points@[k].x as int,
                            points@[k].y as int,
                        ),
                    ).contains(e)),
    {
        let ghost w = self.spec_width() as int;
        let ghost h = self.spec_height() as int;
        let entities = self.entities_with_points(points);
        let ghost pre = *self;
        let mut k: usize = 0;
        while k < points.len()
            invariant
                k <= points@.len(),
                w == self.spec_width() as int,
                h == self.spec_height() as int,
                pre.wf(),
                *self == (AreaState { surface_grid: self.surface_grid, ..pre }),
                self.surface_grid@.len() == pre.surface_grid@.len(),
                forall|c: int, s: usize|
                    0 <= c < pre.dim() ==> (#[trigger] self.surface_grid@[c]@.contains(s) <==> (
                    pre.surface_grid@[c]@.contains(s) && !(s == index && (exists|k2: int|
                        0 <= k2 < k && valid_coords(
                            w,
                            h,
                            (#[trigger] points@[k2]).x as int,
                            points@[k2].y as int,
                        ) && cell_index(w, points@[k2].x as int, points@[k2].y as int) == c)))),
            decreases points@.len() - k,
        {
            let p = points[k];
            if p.x >= 0 && p.y >= 0 && p.x < self.width && p.y < self.height {
                let c = cell_index_exec(self.width, self.height, p.x, p.y);
                proof {
                    lemma_cell_index_bijective(w, h, p.x as int, p.y as int);
                    lemma_grid_injective(w, h);
                }
                let mut lst: Vec<usize> = Vec::new();
                self.surface_grid.set_and_swap(c, &mut lst);
                remove_value(&mut lst, index);
                self.surface_grid.set(c, lst);
            }
            k += 1;
        }
        remove_value(&mut self.surfaces, index);
        entities
    }

    /// One movement-layer cell: the prop passability overlay and entity
    /// emptiness on top of terrain.
    fn point_size_passable(&self, x: i32, y: i32) -> (r: bool)
        requires
            self.wf(),
        ensures
            r == (valid_coords(self.spec_width() as int, self.spec_height() as int, x as int, y as int)
                && self.spec_prop_pass()[cell_index(self.spec_width() as int, x as int, y as int)]
                && self.occupants_at_cell(
                cell_index(self.spec_width() as int, x as int, y as int),
            ).len() == 0),
    {
        if x < 0 || y < 0 || x >= self.width || y >= self.height {
            return false;
        }
        let c = cell_index_exec(self.width, self.height, x, y);
        if !self.prop_pass_grid[c] {
            return false;
        }
        self.entity_grid[c].len() == 0
    }

    /// One movement-layer cell for a specific mover: occupants in the
    /// ignore list do not block.
    #[verifier::loop_isolation(false)]
    fn point_entities_passable(&self, entities_to_ignore: &Vec<usize>, x: i32, y: i32) -> (r: bool)
        requires
            self.wf(),
        ensures
            r == self.cell_passable_ignoring(entities_to_ignore@, x as int, y as int),
    {
        if x < 0 || y < 0 || x >= self.width || y >= self.height {
            return false;
        }
        let c = cell_index_exec(self.width, self.height, x, y);
        if !self.prop_pass_grid[c] {
            return false;
        }
        let mut k: usize = 0;
        while k < self.entity_grid[c].len()
            invariant
                self.wf(),
                c < self.entity_grid@.len(),
                k <= self.entity_grid@[c as int]@.len(),
                forall|j: int|
                    0 <= j < k ==> entities_to_ignore@.contains(
                        #[trigger] self.entity_grid@[c as int]@[j],
                    ),
            decreases self.entity_grid@[c as int]@.len() - k,
        {
            if !contains_value(entities_to_ignore, self.entity_grid[c][k]) {
                proof {
                    assert(self.occupants_at_cell(c as int)[k as int] == self.entity_grid@[c as int]@[k as int]);
                    assert(!self.cell_passable_ignoring(entities_to_ignore@, x as int, y as int))
                        by {
                        assert(c as int == cell_index(
                            self.spec_width() as int,
                            x as int,
                            y as int,
                        ));
                        assert(!entities_to_ignore@.contains(
                            self.occupants_at_cell(c as int)[k as int],
                        ));
                    }
                }
                return false;
            }
            k += 1;
        }
        true
    }

    /// Whether one cell lets a mover through: terrain does not come into
    /// it; the prop overlay must allow it and every occupant must stand in
    /// the ignore list.
    pub open spec fn cell_passable_ignoring(&self, ignore: Seq<usize>, x: int, y: int) -> bool {
        let c = cell_index(self.spec_width() as int, x, y);
        &&& valid_coords(self.spec_width() as int, self.spec_height() as int, x, y)
        &&& self.spec_prop_pass()[c]
        &&& (forall|j: int|
            0 <= j < self.occupants_at_cell(c).len() ==> ignore.contains(
                #[trigger] self.occupants_at_cell(c)[j],
            ))
    }

    /// Whether a footprint of the given size anchored at `(x, y)` is
    /// placeable: terrain and prop overlay allow every cell and no entity
    /// stands on any of them.
    pub open spec fn footprint_placeable(&self, x: int, y: int, size: Size) -> bool {
        forall|px: int, py: int|
            x <= px < x + size.width && y <= py < y + size.height ==> (#[trigger] self.terrain_passable_at(
                px,
                py,
            ) && self.spec_prop_pass()[cell_index(self.spec_width() as int, px, py)]
                && self.occupants_at_cell(
                cell_index(self.spec_width() as int, px, py),
            ).len() == 0)
    }

    /// Whether a mover of the given size can stand at `(x, y)`: placement
    /// plus entity exclusivity.
    pub fn is_passable_size(&self, size: Size, x: i32, y: i32) -> (r: bool)
        requires
            self.wf(),
            1 <= size.width <= 0x7FFF,
            1 <= size.height <= 0x7FFF,
        ensures
            r == self.footprint_placeable(x as int, y as int, size),
    {
        let ghost w = self.spec_width() as int;
        let ghost h = self.spec_height() as int;
        if x < 0 || y < 0 || x > self.width - size.width || y > self.height - size.height {
            proof {
                if x < 0 || y < 0 || x as int > w || y as int > h {
                    assert(!self.terrain_passable_at(x as int, y as int));
                } else if x as int + size.width > w {
                    assert(!self.terrain_passable_at(w, y as int));
                } else {
                    assert(!self.terrain_passable_at(x as int, h));
                }
            }
            return false;
        }
        let mut py = y;
        while py < y + size.height
            invariant
                y <= py <= y + size.height,
                self.wf(),
                w == self.spec_width() as int,
                h == self.spec_height() as int,
                1 <= size.width <= 0x7FFF,
                1 <= size.height <= 0x7FFF,
                0 <= x,
                x + size.width <= self.spec_width(),
                0 <= y,
                y + size.height <= self.spec_height(),
                forall|qx: int, qy: int|
                    x <= qx < x + size.width && y <= qy < py ==> (#[trigger] self.terrain_passable_at(
                        qx,
                        qy,
                    ) && self.spec_prop_pass()[cell_index(w, qx, qy)] && self.occupants_at_cell(
                        cell_index(w, qx, qy),
                    ).len() == 0),
            decreases y + size.height - py,
        {
            let mut px = x;
            while px < x + size.width
                invariant
                    x <= px <= x + size.width,
                    y <= py < y + size.height,
                    self.wf(),
                    w == self.spec_width() as int,
                    h == self.spec_height() as int,
                    1 <= size.width <= 0x7FFF,
                    1 <= size.height <= 0x7FFF,
                    0 <= x,
                    x + size.width <= self.spec_width(),
                    0 <= y,
                    y + size.height <= self.spec_height(),
                    forall|qx: int, qy: int|
                        x <= qx < x + size.width && y <= qy < py ==> (#[trigger] self.terrain_passable_at(
                            qx,
                            qy,
                        ) && self.spec_prop_pass()[cell_index(w, qx, qy)]
                            && self.occupants_at_cell(cell_index(w, qx, qy)).len() == 0),
                    forall|qx: int|
                        x <= qx < px ==> (#[trigger] self.terrain_passable_at(qx, py as int)
                            && self.spec_prop_pass()[cell_index(w, qx, py as int)]
                            && self.occupants_at_cell(cell_index(w, qx, py as int)).len() == 0),
                decreases x + size.width - px,
            {
                if !self.is_terrain_passable(px, py) {
                    return false;
                }
                if !self.point_size_passable(px, py) {
                    return false;
                }
                px += 1;
            }
            py += 1;
        }
        true
    }

    /// Whether the mover `index` can stand at `(new_x, new_y)`: terrain
    /// and prop overlay allow every footprint cell, and every occupant of
    /// those cells stands in the ignore list.
    #[verifier::loop_isolation(false)]
    pub fn is_passable(
        &self,
        index: usize,
        entities_to_ignore: &Vec<usize>,
        new_x: i32,
        new_y: i32,
    ) -> (r: bool)
        requires
            self.wf(),
            self.live(index),
        ensures
            r == self.footprint_passable_ignoring(
                new_x as int,
                new_y as int,
                self.entity(index).size,
                entities_to_ignore@,
            ),
    {
        let ghost w = self.spec_width() as int;
        let ghost h = self.spec_height() as int;
        let size = match &self.entities[index] {
            Some(ent) => ent.size,
            None => Size { width: 1, height: 1 },
        };
        proof {
            assert(size == self.entity(index).size);
        }
        let x = new_x;
        let y = new_y;
        if x < 0 || y < 0 || x > self.width - size.width || y > self.height - size.height {
            proof {
                if x < 0 || y < 0 || x as int > w || y as int > h {
                    assert(!self.terrain_passable_at(x as int, y as int));
                } else if x as int + size.width > w {
                    assert(!self.terrain_passable_at(w, y as int));
                } else {
                    assert(!self.terrain_passable_at(x as int, h));
                }
            }
            return false;
        }
        let mut py = y;
        while py < y + size.height
            invariant
                y <= py <= y + size.height,
                self.wf(),
                w == self.spec_width() as int,
                h == self.spec_height() as int,
                1 <= size.width <= 0x7FFF,
                1 <= size.height <= 0x7FFF,
                0 <= x,
                x + size.width <= self.spec_width(),
                0 <= y,
                y + size.height <= self.spec_height(),
                forall|qx: int, qy: int|
                    x <= qx < x + size.width && y <= qy < py ==> #[trigger] self.terrain_passable_at(
                        qx,
                        qy,
                    ),
                forall|qx: int, qy: int|
                    x <= qx < x + size.width && y <= qy < py
                        ==> #[trigger] self.cell_passable_ignoring(entities_to_ignore@, qx, qy),
            decreases y + size.height - py,
        {
            let mut px = x;
            while px < x + size.width
                invariant
                    x <= px <= x + size.width,
                    y <= py < y + size.height,
                    self.wf(),
                    w == self.spec_width() as int,
                    h == self.spec_height() as int,
                    1 <= size.width <= 0x7FFF,
                    1 <= size.height <= 0x7FFF,
                    0 <= x,
                    x + size.width <= self.spec_width(),
                    0 <= y,
                    y + size.height <= self.spec_height(),
                    forall|qx: int, qy: int|
                        x <= qx < x + size.width && y <= qy < py
                            ==> #[trigger] self.terrain_passable_at(qx, qy),
                    forall|qx: int, qy: int|
                        x <= qx < x + size.width && y <= qy < py
                            ==> #[trigger] self.cell_passable_ignoring(entities_to_ignore@, qx, qy),
                    forall|qx: int|
                        x <= qx < px ==> #[trigger] self.terrain_passable_at(qx, py as int),
                    forall|qx: int|
                        x <= qx < px ==> #[trigger] self.cell_passable_ignoring(
                            entities_to_ignore@,
                            qx,
                            py as int,
                        ),
                decreases x + size.width - px,
            {
                if !self.is_terrain_passable(px, py) {
                    proof {
                        assert(!self.footprint_passable_ignoring(
                            x as int,
                            y as int,
                            size,
                            entities_to_ignore@,
                        )) by {
                            assert(!self.terrain_passable_at(px as int, py as int));
                        }
                    }
                    return false;
                }
                if !self.point_entities_passable(entities_to_ignore, px, py) {
                    proof {
                        assert(!self.footprint_passable_ignoring(
                            x as int,
                            y as int,
                            size,
                            entities_to_ignore@,
                        )) by {
                            assert(!self.cell_passable_ignoring(
                                entities_to_ignore@,
                                px as int,
                                py as int,
                            ));
                        }
                    }
                    return false;
                }
                px += 1;
            }
            py += 1;
        }
        true
    }

    /// Whether every cell of a footprint at `(x, y)` is terrain passable,
    /// overlay passable, and occupied only by ignored entities.
    pub open spec fn footprint_passable_ignoring(
        &self,
        x: int,
        y: int,
        size: Size,
        ignore: Seq<usize>,
    ) -> bool {
        forall|px: int, py: int|
            x <= px < x + size.width && y <= py < y + size.height ==> (#[trigger] self.terrain_passable_at(
                px,
                py,
            ) && self.cell_passable_ignoring(ignore, px, py))
    }
}

/// Whether bit `c` of the packed exploration words is set: bit `i` of
/// word `w` stands for the cell with linear index `i + w * 64`.
pub open spec fn saved_bit(words: Seq<u64>, c: int) -> bool {
    &&& 0 <= c
    &&& c / 64 < words.len()
    &&& (words[c / 64] >> ((c % 64) as u64)) & 1u64 == 1u64
}

/// Whether any cell of the prop's footprint is lit in the visibility
/// grid `vis`, over a grid of the given width.
pub open spec fn prop_sees_vis(width: int, prop: PropState, vis: Seq<bool>) -> bool {
    exists|px: int, py: int|
        prop.location.x <= px < prop.location.x + prop.size.width && prop.location.y <= py
            < prop.location.y + prop.size.height && vis[cell_index(width, px, py)]
}

impl AreaState {
    /// Whether the party currently sees `(x, y)`.  No bounds checking is
    /// done on the arguments.
    pub fn is_pc_visible(&self, x: i32, y: i32) -> (r: bool)
        requires
            self.wf(),
            valid_coords(self.spec_width() as int, self.spec_height() as int, x as int, y as int),
        ensures
            r == self.spec_visible()[cell_index(self.spec_width() as int, x as int, y as int)],
    {
        let c = cell_index_exec(self.width, self.height, x, y);
        self.pc_vis[c]
    }

    /// Whether the party has ever explored `(x, y)`.  No bounds checking
    /// is done on the arguments.
    pub fn is_pc_explored(&self, x: i32, y: i32) -> (r: bool)
        requires
            self.wf(),
            valid_coords(self.spec_width() as int, self.spec_height() as int, x as int, y as int),
        ensures
            r == self.spec_explored()[cell_index(self.spec_width() as int, x as int, y as int)],
    {
        let c = cell_index_exec(self.width, self.height, x, y);
        self.pc_explored[c]
    }

    /// Stores the freshly computed line-of-sight grid of the party member
    /// `e`, accumulates it into the append-only explored grid, and marks
    /// every prop with a visible cell as explored over its whole
    /// footprint.  Explored bits are never cleared.
    #[verifier::loop_isolation(false)]
    pub fn apply_member_visibility(&mut self, e: usize, vis: &Vec<bool>)
        requires
            old(self).wf(),
            old(self).live(e),
            old(self).entity(e).party_member,
            vis@.len() == old(self).dim(),
        ensures
            final(self).wf(),
            same_config(old(self), final(self)),
            same_prop_state(old(self), final(self)),
            same_surface_state(old(self), final(self)),
            same_zone_state(old(self), final(self)),
            final(self).spec_entities() == old(self).spec_entities(),
            final(self).spec_entity_list() == old(self).spec_entity_list(),
            final(self).spec_threat_pairs() == old(self).spec_threat_pairs(),
            forall|c: int|
                0 <= c < old(self).dim() ==> #[trigger] final(self).occupants_at_cell(c) == old(self).occupants_at_cell(c),
            final(self).spec_visible() == old(self).spec_visible(),
            final(self).spec_redraw() == old(self).spec_redraw(),
            final(self).spec_member_vis(e as int) == vis@,
            forall|e2: int|
                0 <= e2 < old(self).spec_entities().len() && e2 != e ==> #[trigger] final(self).spec_member_vis(e2) == old(self).spec_member_vis(e2),
            forall|c: int|
                0 <= c < old(self).dim() ==> (#[trigger] final(self).spec_explored()[c] == (old(self).spec_explored()[c] || vis@[c] || (exists|j: int|
                    0 <= j < old(self).spec_props().len() && (#[trigger] old(self).spec_props()[j]) is Some && prop_sees_vis(
                        old(self).spec_width() as int,
                        old(self).spec_props()[j]->Some_0,
                        vis@,
                    ) && prop_covers(
                        old(self).spec_props()[j]->Some_0,
                        cell_x(old(self).spec_width() as int, c),
                        cell_y(old(self).spec_width() as int, c),
                    )))),
    {
        let ghost w = self.spec_width() as int;
        let ghost h = self.spec_height() as int;
        self.member_vis.set(e, copy_bools(vis));

        let dim = (self.width * self.height) as usize;
        let mut c: usize = 0;
        while c < dim
            invariant
                c <= dim,
                self.wf(),
                self.member_vis@.len() == old(self).member_vis@.len(),
                self.spec_member_vis(e as int) == vis@,
                forall|e2: int|
                    0 <= e2 < old(self).member_vis@.len() && e2 != e ==> self.spec_member_vis(e2) == #[trigger] old(self).spec_member_vis(e2),
                dim == old(self).dim(),
                self.pc_explored@.len() == old(self).pc_explored@.len(),
                *self == (AreaState {
                    member_vis: self.member_vis,
                    pc_explored: self.pc_explored,
                    ..*old(self)
                }),
                forall|c2: int|
                    0 <= c2 < old(self).dim() ==> #[trigger] self.pc_explored@[c2] == (old(self).pc_explored@[c2] || (c2 < c && vis@[c2])),
            decreases dim - c,
        {
            if vis[c] {
                self.pc_explored.set(c, true);
            }
            c += 1;
        }

        let ghost base = self.pc_explored@;
        let nprops = self.props.len();
        let mut j: usize = 0;
        while j < nprops
            invariant
                j <= nprops,
                self.wf(),
                self.member_vis@.len() == old(self).member_vis@.len(),
                self.spec_member_vis(e as int) == vis@,
                forall|e2: int|
                    0 <= e2 < old(self).member_vis@.len() && e2 != e ==> self.spec_member_vis(e2) == #[trigger] old(self).spec_member_vis(e2),
                nprops == self.props@.len(),
                self.pc_explored@.len() == old(self).pc_explored@.len(),
                *self == (AreaState {
                    member_vis: self.member_vis,
                    pc_explored: self.pc_explored,
                    ..*old(self)
                }),
                base.len() == self.pc_explored@.len(),
                forall|c2: int|
                    0 <= c2 < old(self).dim() ==> (#[trigger] self.pc_explored@[c2] == (base[c2]
                        || (exists|j2: int|
                        0 <= j2 < j && (#[trigger] self.props@[j2]) is Some && prop_sees_vis(
                            w,
                            self.props@[j2]->Some_0,
                            vis@,
                        ) && prop_covers(
                            self.props@[j2]->Some_0,
                            cell_x(w, c2),
                            cell_y(w, c2),
                        )))),
            decreases nprops - j,
        {
            let lit = self.prop_sees_vis_exec(j, vis);
            if lit {
                let (sx, sy, ex, ey) = match &self.props[j] {
                    Some(p) => (p.location.x, p.location.y, p.location.x + p.size.width, p.location.y
                        + p.size.height),
                    None => (0, 0, 0, 0),
                };
                let ghost before_marks = self.pc_explored@;
                let mut py = sy;
                while py < ey
                    invariant
                        sy <= py <= ey,
                        self.wf(),
                        self.member_vis@.len() == old(self).member_vis@.len(),
                        self.spec_member_vis(e as int) == vis@,
                        forall|e2: int|
                            0 <= e2 < old(self).member_vis@.len() && e2 != e ==> self.spec_member_vis(e2) == #[trigger] old(self).spec_member_vis(e2),
                        j < self.props@.len(),
                        self.props@[j as int] is Some,
                        sx == self.props@[j as int]->Some_0.location.x,
                        sy == self.props@[j as int]->Some_0.location.y,
                        ex == sx + self.props@[j as int]->Some_0.size.width,
                        ey == sy + self.props@[j as int]->Some_0.size.height,
                        self.pc_explored@.len() == old(self).pc_explored@.len(),
                        *self == (AreaState {
                            member_vis: self.member_vis,
                            pc_explored: self.pc_explored,
                            ..*old(self)
                        }),
                        before_marks.len() == self.pc_explored@.len(),
                        forall|c2: int|
                            0 <= c2 < old(self).dim() ==> (#[trigger] self.pc_explored@[c2] == (
                            before_marks[c2] || (prop_covers(
                                self.props@[j as int]->Some_0,
                                cell_x(w, c2),
                                cell_y(w, c2),
                            ) && cell_y(w, c2) < py))),
                    decreases ey - py,
                {
                    let mut px = sx;
                    while px < ex
                        invariant
                            sx <= px <= ex,
                            sy <= py < ey,
                            self.wf(),
                            self.member_vis@.len() == old(self).member_vis@.len(),
                            self.spec_member_vis(e as int) == vis@,
                            forall|e2: int|
                                0 <= e2 < old(self).member_vis@.len() && e2 != e ==> self.spec_member_vis(e2) == #[trigger] old(self).spec_member_vis(e2),
                            j < self.props@.len(),
                            self.props@[j as int] is Some,
                            sx == self.props@[j as int]->Some_0.location.x,
                            sy == self.props@[j as int]->Some_0.location.y,
                            ex == sx + self.props@[j as int]->Some_0.size.width,
                            ey == sy + self.props@[j as int]->Some_0.size.height,
                            self.pc_explored@.len() == old(self).pc_explored@.len(),
                            *self == (AreaState {
                                member_vis: self.member_vis,
                                pc_explored: self.pc_explored,
                                ..*old(self)
                            }),
                            before_marks.len() == self.pc_explored@.len(),
                            forall|c2: int|
                                0 <= c2 < old(self).dim() ==> (#[trigger] self.pc_explored@[c2] == (
                                before_marks[c2] || (prop_covers(
                                    self.props@[j as int]->Some_0,
                                    cell_x(w, c2),
                                    cell_y(w, c2),
                                ) && (cell_y(w, c2) < py || (cell_y(w, c2) == py && cell_x(w, c2)
                                    < px))))),
                        decreases ex - px,
                    {
                        let cc = cell_index_exec(self.width, self.height, px, py);
                        self.pc_explored.set(cc, true);
                        proof {
                            lemma_cell_index_bijective(w, h, px as int, py as int);
                            lemma_grid_injective(w, h);
                        }
                        px += 1;
                    }
                    py += 1;
                }
            }
            j += 1;
        }
    }

    /// Whether any cell of the footprint of the prop in slot `j` is lit in
    /// `vis`.
    #[verifier::loop_isolation(false)]
    fn prop_sees_vis_exec(&self, j: usize, vis: &Vec<bool>) -> (r: bool)
        requires
            self.wf(),
            j < self.spec_props().len(),
            vis@.len() == self.dim(),
        ensures
            self.spec_props()[j as int] is Some ==> r == prop_sees_vis(
                self.spec_width() as int,
                self.spec_props()[j as int]->Some_0,
                vis@,
            ),
            self.spec_props()[j as int] is None ==> r == false,
    {
        let ghost w = self.spec_width() as int;
        let ghost h = self.spec_height() as int;
        let (sx, sy, ex, ey) = match &self.props[j] {
            Some(p) => (p.location.x, p.location.y, p.location.x + p.size.width, p.location.y
                + p.size.height),
            None => {
                return false;
            },
        };
        let mut py = sy;
        while py < ey
            invariant
                sy <= py <= ey,
                forall|qx: int, qy: int|
                    sx <= qx < ex && sy <= qy < py ==> !vis@[#[trigger] cell_index(w, qx, qy)],
            decreases ey - py,
        {
            let mut px = sx;
            while px < ex
                invariant
                    sx <= px <= ex,
                    sy <= py < ey,
                    forall|qx: int, qy: int|
                        sx <= qx < ex && sy <= qy < py ==> !vis@[#[trigger] cell_index(w, qx, qy)],
                    forall|qx: int|
                        sx <= qx < px ==> !vis@[#[trigger] cell_index(w, qx, py as int)],
                decreases ex - px,
            {
                let cc = cell_index_exec(self.width, self.height, px, py);
                if vis[cc] {
                    return true;
                }
                px += 1;
            }
            py += 1;
        }
        false
    }

    /// Recomputes the shared "currently visible" grid as the disjunction
    /// of every live party member's own visibility grid.
    #[verifier::loop_isolation(false)]
    pub fn update_view_visibility(&mut self)
        requires
            old(self).wf(),
        ensures
            final(self).wf(),
            same_config(old(self), final(self)),
            same_prop_state(old(self), final(self)),
            same_surface_state(old(self), final(self)),
            same_zone_state(old(self), final(self)),
            same_entity_state(old(self), final(self)),
            final(self).spec_explored() == old(self).spec_explored(),
            final(self).spec_redraw() == old(self).spec_redraw(),
            forall|c: int|
                0 <= c < old(self).dim() ==> (#[trigger] final(self).spec_visible()[c] == (exists|
                e: usize,
            |
                    old(self).live(e) && (#[trigger] old(self).entity(e)).party_member && old(self).spec_member_vis(e as int)[c])),
    {
        let ghost w = self.spec_width() as int;
        let dim = (self.width * self.height) as usize;
        self.pc_vis = filled_vec(dim, false);

        let n = self.entity_list.len();
        let mut k: usize = 0;
        while k < n
            invariant
                k <= n,
                n == self.entity_list@.len(),
                self.pc_vis@.len() == old(self).dim(),
                *self == (AreaState { pc_vis: self.pc_vis, ..*old(self) }),
                forall|c: int|
                    0 <= c < old(self).dim() ==> (#[trigger] self.pc_vis@[c] == (exists|k2: int|
                        0 <= k2 < k && old(self).live(#[trigger] old(self).spec_entity_list()[k2])
                            && old(self).entity(
                            old(self).spec_entity_list()[k2],
                        ).party_member && old(self).spec_member_vis(
                            old(self).spec_entity_list()[k2] as int,
                        )[c])),
            decreases n - k,
        {
            let e = self.entity_list[k];
            proof {
                assert(self.entity_list@[k as int] == e);
                assert(self.entity_list@.contains(e));
            }
            let party = match &self.entities[e] {
                Some(ent) => ent.party_member,
                None => false,
            };
            if party {
                let mut c: usize = 0;
                while c < dim
                    invariant
                        c <= dim,
                        k < n,
                        n == self.entity_list@.len(),
                        e == self.entity_list@[k as int],
                        old(self).live(e),
                        old(self).entity(e).party_member,
                        dim == old(self).dim(),
                        e < self.member_vis@.len(),
                        self.member_vis@[e as int]@.len() == old(self).dim(),
                        self.pc_vis@.len() == old(self).dim(),
                        *self == (AreaState { pc_vis: self.pc_vis, ..*old(self) }),
                        forall|c2: int|
                            0 <= c2 < old(self).dim() ==> (#[trigger] self.pc_vis@[c2] == ((exists|
                            k2: int,
                        |
                                0 <= k2 < k && old(self).live(
                                    #[trigger] old(self).spec_entity_list()[k2],
                                ) && old(self).entity(
                                    old(self).spec_entity_list()[k2],
                                ).party_member && old(self).spec_member_vis(
                                    old(self).spec_entity_list()[k2] as int,
                                )[c2]) || (c2 < c && old(self).spec_member_vis(e as int)[c2]))),
                    decreases dim - c,
                {
                    if self.member_vis[e][c] {
                        self.pc_vis.set(c, true);
                    }
                    c += 1;
                }
            }
            proof {
                if !party {
                    assert forall|c2: int| 0 <= c2 < old(self).dim() implies (
                    #[trigger] self.pc_vis@[c2] == (exists|k2: int|
                        0 <= k2 < k + 1 && old(self).live(
                            #[trigger] old(self).spec_entity_list()[k2],
                        ) && old(self).entity(old(self).spec_entity_list()[k2]).party_member && old(self).spec_member_vis(old(self).spec_entity_list()[k2] as int)[c2])) by {
                        if self.pc_vis@[c2] {
                        } else {
                            if exists|k2: int|
                                0 <= k2 < k + 1 && old(self).live(
                                    #[trigger] old(self).spec_entity_list()[k2],
                                ) && old(self).entity(
                                    old(self).spec_entity_list()[k2],
                                ).party_member && old(self).spec_member_vis(
                                    old(self).spec_entity_list()[k2] as int,
                                )[c2] {
                                let k2 = choose|k2: int|
                                    0 <= k2 < k + 1 && old(self).live(
                                        #[trigger] old(self).spec_entity_list()[k2],
                                    ) && old(self).entity(
                                        old(self).spec_entity_list()[k2],
                                    ).party_member && old(self).spec_member_vis(
                                        old(self).spec_entity_list()[k2] as int,
                                    )[c2];
                                assert(k2 < k);
                            }
                        }
                    }
                }
            }
            k += 1;
        }
        proof {
            assert forall|c: int| 0 <= c < old(self).dim() implies (#[trigger] self.pc_vis@[c] == (
            exists|e: usize|
                old(self).live(e) && (#[trigger] old(self).entity(e)).party_member && old(self).spec_member_vis(e as int)[c])) by {
                if self.pc_vis@[c] {
                    let k2 = choose|k2: int|
                        0 <= k2 < n && old(self).live(#[trigger] old(self).spec_entity_list()[k2])
                            && old(self).entity(old(self).spec_entity_list()[k2]).party_member
                            && old(self).spec_member_vis(old(self).spec_entity_list()[k2] as int)[c];
                    let e = old(self).spec_entity_list()[k2];
                    assert(old(self).live(e) && old(self).entity(e).party_member && old(self).spec_member_vis(e as int)[c]);
                } else {
                    if exists|e: usize|
                        old(self).live(e) && (#[trigger] old(self).entity(e)).party_member && old(self).spec_member_vis(e as int)[c] {
                        let e = choose|e: usize|
                            old(self).live(e) && (#[trigger] old(self).entity(e)).party_member
                                && old(self).spec_member_vis(e as int)[c];
                        assert(old(self).spec_entity_list().contains(e));
                        let k2 = choose|k2: int|
                            0 <= k2 < old(self).spec_entity_list().len() && (#[trigger] old(self).spec_entity_list()[k2]) == e;
                        assert(false);
                    }
                }
            }
        }
    }

    /// Applies a saved exploration bitset: bit `i` of word `w` marks the
    /// cell `i + w * 64` explored.  Bits beyond the grid are ignored, and
    /// no explored bit is ever cleared.
    #[verifier::loop_isolation(false)]
    pub fn apply_saved_exploration(&mut self, words: &Vec<u64>)
        requires
            old(self).wf(),
        ensures
            final(self).wf(),
            same_config(old(self), final(self)),
            same_prop_state(old(self), final(self)),
            same_surface_state(old(self), final(self)),
            same_zone_state(old(self), final(self)),
            same_entity_state(old(self), final(self)),
            final(self).spec_visible() == old(self).spec_visible(),
            final(self).spec_redraw() == old(self).spec_redraw(),
            forall|c: int|
                0 <= c < old(self).dim() ==> #[trigger] final(self).spec_explored()[c] == (old(self).spec_explored()[c] || saved_bit(words@, c)),
    {
        let ghost w = self.spec_width() as int;
        let dim = (self.width * self.height) as usize;
        let dim_div = dim / 64;
        let mut wi: usize = 0;
        while wi < words.len() && wi <= dim_div
            invariant
                wi <= words@.len(),
                wi <= dim_div + 1,
                dim == old(self).dim(),
                dim_div == dim / 64,
                self.pc_explored@.len() == old(self).dim(),
                *self == (AreaState { pc_explored: self.pc_explored, ..*old(self) }),
                forall|c: int|
                    0 <= c < old(self).dim() ==> #[trigger] self.pc_explored@[c] == (old(self).pc_explored@[c] || (c / 64 < wi && saved_bit(words@, c))),
            decreases words@.len() - wi,
        {
            let word = words[wi];
            let mut i: usize = 0;
            while i < 64
                invariant
                    i <= 64,
                    wi < words@.len(),
                    wi <= dim_div,
                    word == words@[wi as int],
                    dim == old(self).dim(),
                    dim_div == dim / 64,
                    self.pc_explored@.len() == old(self).dim(),
                    *self == (AreaState { pc_explored: self.pc_explored, ..*old(self) }),
                    forall|c: int|
                        0 <= c < old(self).dim() ==> #[trigger] self.pc_explored@[c] == (old(self).pc_explored@[c] || (c / 64 < wi && saved_bit(words@, c)) || (c / 64 == wi
                            && c % 64 < i && saved_bit(words@, c))),
                decreases 64 - i,
            {
                if (word >> (i as u64)) & 1 == 1 {
                    proof {
                        lemma_cell_index_bijective(64, wi as int + 1, i as int, wi as int);
                        assert(dim_div * 64 <= dim) by (nonlinear_arith)
                            requires
                                dim_div == dim / 64,
                                0 <= dim,
                        ;
                    }
                    let c = i + wi * 64;
                    if c < dim {
                        self.pc_explored.set(c, true);
                    }
                }
                i += 1;
            }
            wi += 1;
        }
        proof {
            assert forall|c: int|
                0 <= c < old(self).dim() implies #[trigger] self.pc_explored@[c] == (old(self).pc_explored@[c] || saved_bit(words@, c)) by {
                assert(0 <= c / 64) by (nonlinear_arith)
                    requires
                        0 <= c,
                ;
                if saved_bit(words@, c) && !old(self).pc_explored@[c] {
                    assert(c / 64 <= dim / 64) by (nonlinear_arith)
                        requires
                            0 <= c < dim,
                    ;
                }
            }
        }
    }
}

/// A copy of a boolean grid.
fn copy_bools(src: &Vec<bool>) -> (r: Vec<bool>)
    ensures
        r@ == src@,
{
    let mut r: Vec<bool> = Vec::new();
    let mut i: usize = 0;
    while i < src.len()
        invariant
            i <= src@.len(),
            r@ == src@.take(i as int),
        decreases src@.len() - i,
    {
        r.push(src[i]);
        i += 1;
    }
    proof {
        assert(src@.take(src@.len() as int) =~= src@);
    }
    r
}

impl AreaState {
    /// Whether a trigger rectangle lies on the grid.
    pub open spec fn rect_in_bounds(&self, rect: TriggerRect) -> bool {
        &&& 0 <= rect.size.width <= 0x7FFF
        &&& 0 <= rect.size.height <= 0x7FFF
        &&& 0 <= rect.location.x
        &&& rect.location.x + rect.size.width <= self.spec_width()
        &&& 0 <= rect.location.y
        &&& rect.location.y + rect.size.height <= self.spec_height()
    }

    /// Whether the trigger definition watches a zone that covers the cell
    /// with linear index `c`.
    pub open spec fn trigger_zone_covers(&self, def: TriggerDef, c: int) -> bool {
        let w = self.spec_width() as int;
        &&& def.rect is Some
        &&& self.rect_in_bounds(def.rect->Some_0)
        &&& def.rect->Some_0.location.x <= cell_x(w, c) < def.rect->Some_0.location.x
            + def.rect->Some_0.size.width
        &&& def.rect->Some_0.location.y <= cell_y(w, c) < def.rect->Some_0.location.y
            + def.rect->Some_0.size.height
    }

    /// Appends one trigger with the given state, so that trigger indices
    /// always align with the definition order, and writes its player-enter
    /// zone into the trigger grid.  A zone off the grid is left unwritten.
    #[verifier::loop_isolation(false)]
    pub fn add_trigger(&mut self, def: &TriggerDef, state: TriggerState) -> (idx: usize)
        requires
            old(self).wf(),
        ensures
            final(self).wf(),
            same_config(old(self), final(self)),
            same_prop_state(old(self), final(self)),
            same_surface_state(old(self), final(self)),
            same_entity_state(old(self), final(self)),
            same_fog_state(old(self), final(self)),
            forall|c: int|
                0 <= c < old(self).dim() ==> #[trigger] final(self).transition_at_cell(c) == old(self).transition_at_cell(c),
            idx == old(self).spec_triggers().len(),
            final(self).spec_triggers() == old(self).spec_triggers().push(state),
            forall|c: int|
                0 <= c < old(self).dim() ==> #[trigger] final(self).trigger_at_cell(c) == (if old(
                    self,
                ).trigger_zone_covers(*def, c) {
                    Some(idx)
                } else {
                    old(self).trigger_at_cell(c)
                }),
    {
        let ghost w = self.spec_width() as int;
        let ghost h = self.spec_height() as int;
        let idx = self.triggers.len();
        self.triggers.push(state);
        let rect = match def.rect {
            None => {
                return idx;
            },
            Some(rect) => rect,
        };
        let rect_ok = 0 <= rect.size.width && rect.size.width <= 0x7FFF && 0 <= rect.size.height
            && rect.size.height <= 0x7FFF && 0 <= rect.location.x && rect.location.x <= self.width
            - rect.size.width && 0 <= rect.location.y && rect.location.y <= self.height
            - rect.size.height;
        if !rect_ok {
            return idx;
        }
        let ghost mid = *self;

        let sx = rect.location.x;
        let sy = rect.location.y;
        let ex = rect.location.x + rect.size.width;
        let ey = rect.location.y + rect.size.height;
        let mut y = sy;
        while y < ey
            invariant
                sy <= y <= ey,
                idx < self.triggers@.len(),
                *self == (AreaState { trigger_grid: self.trigger_grid, ..mid }),
                self.trigger_grid@.len() == mid.trigger_grid@.len(),
                forall|c: int|
                    0 <= c < self.dim() ==> #[trigger] self.trigger_grid@[c] == (if (sx <= cell_x(
                        w,
                        c,
                    ) < ex && sy <= cell_y(w, c) < y) {
                        Some(idx)
                    } else {
                        mid.trigger_grid@[c]
                    }),
            decreases ey - y,
        {
            let mut x = sx;
            while x < ex
                invariant
                    sx <= x <= ex,
                    sy <= y < ey,
                    idx < self.triggers@.len(),
                    *self == (AreaState { trigger_grid: self.trigger_grid, ..mid }),
                    self.trigger_grid@.len() == mid.trigger_grid@.len(),
                    forall|c: int|
                        0 <= c < self.dim() ==> #[trigger] self.trigger_grid@[c] == (if (sx
                            <= cell_x(w, c) < ex && sy <= cell_y(w, c) < y) || (cell_y(w, c) == y
                            && sx <= cell_x(w, c) < x) {
                            Some(idx)
                        } else {
                            mid.trigger_grid@[c]
                        }),
                decreases ex - x,
            {
                let c = cell_index_exec(self.width, self.height, x, y);
                self.trigger_grid.set(c, Some(idx));
                proof {
                    lemma_cell_index_bijective(w, h, x as int, y as int);
                    lemma_grid_injective(w, h);
                }
                x += 1;
            }
            y += 1;
        }
        idx
    }

    /// Populates the trigger table from the area definition: one trigger
    /// per definition, in definition order, unfired and enabled as
    /// defined; zones are written in order, a later zone overwriting an
    /// earlier one where they overlap, and a zone off the grid writing
    /// nothing.
    #[verifier::loop_isolation(false)]
    pub fn populate_triggers(&mut self, defs: &Vec<TriggerDef>)
        requires
            old(self).wf(),
        ensures
            final(self).wf(),
            same_config(old(self), final(self)),
            same_prop_state(old(self), final(self)),
            same_surface_state(old(self), final(self)),
            same_entity_state(old(self), final(self)),
            same_fog_state(old(self), final(self)),
            forall|c: int|
                0 <= c < old(self).dim() ==> #[trigger] final(self).transition_at_cell(c) == old(self).transition_at_cell(c),
            final(self).spec_triggers() == old(self).spec_triggers() + defs@.map_values(
                |d: TriggerDef| TriggerState { fired: false, enabled: d.initially_enabled },
            ),
            forall|c: int|
                0 <= c < old(self).dim() && (forall|k: int|
                    0 <= k < defs@.len() ==> !old(self).trigger_zone_covers(#[trigger] defs@[k], c))
                    ==> #[trigger] final(self).trigger_at_cell(c) == old(self).trigger_at_cell(c),
            forall|c: int, k: int|
                #![trigger final(self).trigger_at_cell(c), defs@[k]]
                0 <= c < old(self).dim() && 0 <= k < defs@.len() && old(self).trigger_zone_covers(
                    defs@[k],
                    c,
                ) && (forall|k2: int|
                    k < k2 < defs@.len() ==> !old(self).trigger_zone_covers(#[trigger] defs@[k2], c))
                    ==> final(self).trigger_at_cell(c) == Some(
                    (old(self).spec_triggers().len() + k) as usize,
                ),
    {
        let ghost base = old(self).spec_triggers().len() as int;
        let mut k: usize = 0;
        while k < defs.len()
            invariant
                k <= defs@.len(),
                self.wf(),
                same_config(old(self), self),
                same_prop_state(old(self), self),
                same_surface_state(old(self), self),
                same_entity_state(old(self), self),
                same_fog_state(old(self), self),
                base == old(self).spec_triggers().len() as int,
                forall|c: int|
                    0 <= c < old(self).dim() ==> #[trigger] self.transition_at_cell(c) == old(self).transition_at_cell(c),
                self.spec_triggers() == old(self).spec_triggers() + defs@.take(k as int).map_values(
                    |d: TriggerDef| TriggerState { fired: false, enabled: d.initially_enabled },
                ),
                forall|c: int|
                    0 <= c < old(self).dim() && (forall|k2: int|
                        0 <= k2 < k ==> !old(self).trigger_zone_covers(#[trigger] defs@[k2], c))
                        ==> #[trigger] self.trigger_at_cell(c) == old(self).trigger_at_cell(c),
                forall|c: int, k2: int|
                    #![trigger self.trigger_at_cell(c), defs@[k2]]
                    0 <= c < old(self).dim() && 0 <= k2 < k && old(self).trigger_zone_covers(
                        defs@[k2],
                        c,
                    ) && (forall|k3: int|
                        k2 < k3 < k ==> !old(self).trigger_zone_covers(#[trigger] defs@[k3], c))
                        ==> self.trigger_at_cell(c) == Some((base + k2) as usize),
            decreases defs@.len() - k,
        {
            let def = defs[k];
            let ghost before = self.spec_triggers();
            let _ = self.add_trigger(&def, TriggerState { fired: false, enabled: def.initially_enabled });
            proof {
                assert(defs@.take(k + 1) =~= defs@.take(k as int).push(defs@[k as int]));
                assert(defs@.take(k + 1).map_values(
                    |d: TriggerDef| TriggerState { fired: false, enabled: d.initially_enabled },
                ) =~= defs@.take(k as int).map_values(
                    |d: TriggerDef| TriggerState { fired: false, enabled: d.initially_enabled },
                ).push(TriggerState { fired: false, enabled: defs@[k as int].initially_enabled }));
                assert(self.spec_triggers() =~= old(self).spec_triggers() + defs@.take(
                    k + 1,
                ).map_values(
                    |d: TriggerDef| TriggerState { fired: false, enabled: d.initially_enabled },
                ));
            }
            k += 1;
        }
        proof {
            assert(defs@.take(defs@.len() as int) =~= defs@);
            assert(defs@.take(defs@.len() as int).map_values(
                |d: TriggerDef| TriggerState { fired: false, enabled: d.initially_enabled },
            ) =~= defs@.map_values(
                |d: TriggerDef| TriggerState { fired: false, enabled: d.initially_enabled },
            ));
        }
    }

    /// Rebuilds the trigger table from a save: one trigger per saved
    /// state, in list order, zoned by the area definition.  A save holding
    /// more triggers than the definition is rejected whole as invalid
    /// data.
    #[verifier::loop_isolation(false)]
    pub fn load_trigger_states(&mut self, defs: &Vec<TriggerDef>, saved: &Vec<TriggerState>) -> (r:
        Result<(), AreaError>)
        requires
            old(self).wf(),
        ensures
            final(self).wf(),
            same_config(old(self), final(self)),
            same_prop_state(old(self), final(self)),
            same_surface_state(old(self), final(self)),
            same_entity_state(old(self), final(self)),
            same_fog_state(old(self), final(self)),
            forall|c: int|
                0 <= c < old(self).dim() ==> #[trigger] final(self).transition_at_cell(c) == old(self).transition_at_cell(c),
            r is Ok <==> saved@.len() <= defs@.len(),
            r is Err ==> (final(self).spec_triggers() == old(self).spec_triggers() && (forall|
                c: int,
            |
                0 <= c < old(self).dim() ==> #[trigger] final(self).trigger_at_cell(c) == old(self).trigger_at_cell(c))),
            r is Ok ==> final(self).spec_triggers() == old(self).spec_triggers() + saved@,
            r is Ok ==> (forall|c: int|
                0 <= c < old(self).dim() && (forall|k: int|
                    0 <= k < saved@.len() ==> !old(self).trigger_zone_covers(#[trigger] defs@[k], c))
                    ==> #[trigger] final(self).trigger_at_cell(c) == old(self).trigger_at_cell(c)),
            r is Ok ==> (forall|c: int, k: int|
                #![trigger final(self).trigger_at_cell(c), defs@[k]]
                0 <= c < old(self).dim() && 0 <= k < saved@.len() && old(self).trigger_zone_covers(
                    defs@[k],
                    c,
                ) && (forall|k2: int|
                    k < k2 < saved@.len() ==> !old(self).trigger_zone_covers(
                        #[trigger] defs@[k2],
                        c,
                    )) ==> final(self).trigger_at_cell(c) == Some(
                    (old(self).spec_triggers().len() + k) as usize,
                )),
    {
        if saved.len() > defs.len() {
            return Err(AreaError::InvalidData);
        }
        let ghost base = old(self).spec_triggers().len() as int;
        let mut k: usize = 0;
        while k < saved.len()
            invariant
                k <= saved@.len(),
                saved@.len() <= defs@.len(),
                self.wf(),
                same_config(old(self), self),
                same_prop_state(old(self), self),
                same_surface_state(old(self), self),
                same_entity_state(old(self), self),
                same_fog_state(old(self), self),
                base == old(self).spec_triggers().len() as int,
                forall|c: int|
                    0 <= c < old(self).dim() ==> #[trigger] self.transition_at_cell(c) == old(self).transition_at_cell(c),
                self.spec_triggers() == old(self).spec_triggers() + saved@.take(k as int),
                forall|c: int|
                    0 <= c < old(self).dim() && (forall|k2: int|
                        0 <= k2 < k ==> !old(self).trigger_zone_covers(#[trigger] defs@[k2], c))
                        ==> #[trigger] self.trigger_at_cell(c) == old(self).trigger_at_cell(c),
                forall|c: int, k2: int|
                    #![trigger self.trigger_at_cell(c), defs@[k2]]
                    0 <= c < old(self).dim() && 0 <= k2 < k && old(self).trigger_zone_covers(
                        defs@[k2],
                        c,
                    ) && (forall|k3: int|
                        k2 < k3 < k ==> !old(self).trigger_zone_covers(#[trigger] defs@[k3], c))
                        ==> self.trigger_at_cell(c) == Some((base + k2) as usize),
            decreases saved@.len() - k,
        {
            let def = defs[k];
            let st = saved[k];
            let _ = self.add_trigger(&def, st);
            proof {
                assert(saved@.take(k + 1) =~= saved@.take(k as int).push(saved@[k as int]));
                assert(self.spec_triggers() =~= old(self).spec_triggers() + saved@.take(k + 1));
            }
            k += 1;
        }
        proof {
            assert(saved@.take(saved@.len() as int) =~= saved@);
        }
        Ok(())
    }

    /// Writes the transition zones of the area definition into the
    /// transition grid, in order, later zones overwriting earlier ones
    /// where they overlap.  A zone off the grid is skipped.
    #[verifier::loop_isolation(false)]
    pub fn add_transitions(&mut self, transitions: &Vec<TransitionDef>)
        requires
            old(self).wf(),
        ensures
            final(self).wf(),
            same_config(old(self), final(self)),
            same_prop_state(old(self), final(self)),
            same_surface_state(old(self), final(self)),
            same_entity_state(old(self), final(self)),
            same_fog_state(old(self), final(self)),
            final(self).spec_triggers() == old(self).spec_triggers(),
            forall|c: int|
                0 <= c < old(self).dim() ==> #[trigger] final(self).trigger_at_cell(c) == old(self).trigger_at_cell(c),
            forall|c: int|
                0 <= c < old(self).dim() && (forall|k: int|
                    0 <= k < transitions@.len() ==> !transition_zone_covers(
                        old(self).spec_width() as int,
                        #[trigger] transitions@[k],
                        c,
                    )) ==> #[trigger] final(self).transition_at_cell(c) == old(self).transition_at_cell(c),
            forall|c: int, k: int|
                #![trigger final(self).transition_at_cell(c), transitions@[k]]
                0 <= c < old(self).dim() && 0 <= k < transitions@.len() && old(self).zone_ok(
                    transitions@[k],
                ) && transition_zone_covers(old(self).spec_width() as int, transitions@[k], c) && (
                forall|k2: int|
                    k < k2 < transitions@.len() ==> !(old(self).zone_ok(#[trigger] transitions@[k2])
                        && transition_zone_covers(
                        old(self).spec_width() as int,
                        transitions@[k2],
                        c,
                    ))) ==> final(self).transition_at_cell(c) == Some(k as usize),
    {
        let ghost w = self.spec_width() as int;
        let ghost h = self.spec_height() as int;
        let mut k: usize = 0;
        while k < transitions.len()
            invariant
                k <= transitions@.len(),
                self.wf(),
                w == self.spec_width() as int,
                h == self.spec_height() as int,
                *self == (AreaState { transition_grid: self.transition_grid, ..*old(self) }),
                self.transition_grid@.len() == old(self).transition_grid@.len(),
                forall|c: int|
                    0 <= c < old(self).dim() && (forall|k2: int|
                        0 <= k2 < k ==> !(old(self).zone_ok(#[trigger] transitions@[k2])
                            && transition_zone_covers(w, transitions@[k2], c)))
                        ==> #[trigger] self.transition_grid@[c] == old(self).transition_grid@[c],
                forall|c: int, k2: int|
                    #![trigger self.transition_grid@[c], transitions@[k2]]
                    0 <= c < old(self).dim() && 0 <= k2 < k && old(self).zone_ok(transitions@[k2])
                        && transition_zone_covers(w, transitions@[k2], c) && (forall|k3: int|
                        k2 < k3 < k ==> !(old(self).zone_ok(#[trigger] transitions@[k3])
                            && transition_zone_covers(w, transitions@[k3], c)))
                        ==> self.transition_grid@[c] == Some(k2 as usize),
            decreases transitions@.len() - k,
        {
            let t = transitions[k];
            let zone_valid = 0 <= t.size.width && t.size.width <= 0x7FFF && 0 <= t.size.height
                && t.size.height <= 0x7FFF && 0 <= t.from.x && t.from.x <= self.width - t.size.width
                && 0 <= t.from.y && t.from.y <= self.height - t.size.height;
            if zone_valid {
                let ghost mid = *self;
                let sx = t.from.x;
                let sy = t.from.y;
                let ex = t.from.x + t.size.width;
                let ey = t.from.y + t.size.height;
                let mut y = sy;
                while y < ey
                    invariant
                        sy <= y <= ey,
                        k < transitions@.len(),
                        t == transitions@[k as int],
                        sx == t.from.x,
                        sy == t.from.y,
                        ex == t.from.x + t.size.width,
                        ey == t.from.y + t.size.height,
                        old(self).zone_ok(t),
                        *self == (AreaState { transition_grid: self.transition_grid, ..mid }),
                        self.transition_grid@.len() == mid.transition_grid@.len(),
                        forall|c: int|
                            0 <= c < old(self).dim() ==> #[trigger] self.transition_grid@[c] == (
                            if (sx <= cell_x(w, c) < ex && sy <= cell_y(w, c) < y) {
                                Some(k as usize)
                            } else {
                                mid.transition_grid@[c]
                            }),
                    decreases ey - y,
                {
                    let mut x = sx;
                    while x < ex
                        invariant
                            sx <= x <= ex,
                            sy <= y < ey,
                            k < transitions@.len(),
                            t == transitions@[k as int],
                            sx == t.from.x,
                            sy == t.from.y,
                            ex == t.from.x + t.size.width,
                            ey == t.from.y + t.size.height,
                            old(self).zone_ok(t),
                            *self == (AreaState { transition_grid: self.transition_grid, ..mid }),
                            self.transition_grid@.len() == mid.transition_grid@.len(),
                            forall|c: int|
                                0 <= c < old(self).dim() ==> #[trigger] self.transition_grid@[c]
                                    == (if (sx <= cell_x(w, c) < ex && sy <= cell_y(w, c) < y) || (
                                cell_y(w, c) == y && sx <= cell_x(w, c) < x) {
                                    Some(k as usize)
                                } else {
                                    mid.transition_grid@[c]
                                }),
                        decreases ex - x,
                    {
                        let c = cell_index_exec(self.width, self.height, x, y);
                        self.transition_grid.set(c, Some(k));
                        proof {
                            lemma_cell_index_bijective(w, h, x as int, y as int);
                            lemma_grid_injective(w, h);
                        }
                        x += 1;
                    }
                    y += 1;
                }
            }
            k += 1;
        }
    }

    /// Whether a transition zone lies on the grid.
    pub open spec fn zone_ok(&self, t: TransitionDef) -> bool {
        &&& 0 <= t.size.width <= 0x7FFF
        &&& 0 <= t.size.height <= 0x7FFF
        &&& 0 <= t.from.x
        &&& t.from.x + t.size.width <= self.spec_width()
        &&& 0 <= t.from.y
        &&& t.from.y + t.size.height <= self.spec_height()
    }

    /// The transition zone under `(x, y)`, if any.
    pub fn get_transition_at(&self, x: i32, y: i32) -> (r: Option<usize>)
        requires
            self.wf(),
        ensures
            r == (if valid_coords(self.spec_width() as int, self.spec_height() as int, x as int, y as int) {
                self.transition_at_cell(cell_index(self.spec_width() as int, x as int, y as int))
            } else {
                None::<usize>
            }),
    {
        if x < 0 || y < 0 || x >= self.width || y >= self.height {
            return None;
        }
        let c = cell_index_exec(self.width, self.height, x, y);
        self.transition_grid[c]
    }

    /// Enables or disables the trigger watching `(x, y)` and says whether
    /// there was one.
    pub fn set_trigger_enabled_at(&mut self, x: i32, y: i32, enabled: bool) -> (r: bool)
        requires
            old(self).wf(),
        ensures
            final(self).wf(),
            same_config(old(self), final(self)),
            same_prop_state(old(self), final(self)),
            same_surface_state(old(self), final(self)),
            same_entity_state(old(self), final(self)),
            same_fog_state(old(self), final(self)),
            forall|c: int|
                0 <= c < old(self).dim() ==> #[trigger] final(self).trigger_at_cell(c) == old(self).trigger_at_cell(c),
            forall|c: int|
                0 <= c < old(self).dim() ==> #[trigger] final(self).transition_at_cell(c) == old(self).transition_at_cell(c),
            r == (valid_coords(
                old(self).spec_width() as int,
                old(self).spec_height() as int,
                x as int,
                y as int,
            ) && old(self).trigger_at_cell(
                cell_index(old(self).spec_width() as int, x as int, y as int),
            ) is Some),
            r ==> ({
                let t = old(self).trigger_at_cell(
                    cell_index(old(self).spec_width() as int, x as int, y as int),
                )->Some_0 as int;
                final(self).spec_triggers() == old(self).spec_triggers().update(
                    t,
                    TriggerState { fired: old(self).spec_triggers()[t].fired, enabled },
                )
            }),
            !r ==> final(self).spec_triggers() == old(self).spec_triggers(),
    {
        if x < 0 || y < 0 || x >= self.width || y >= self.height {
            return false;
        }
        let c = cell_index_exec(self.width, self.height, x, y);
        let index = match self.trigger_grid[c] {
            None => {
                return false;
            },
            Some(index) => index,
        };
        let old_state = self.triggers[index];
        self.triggers.set(index, TriggerState { fired: old_state.fired, enabled });
        true
    }
}

/// Whether the transition zone covers the cell with linear index `c`.
pub open spec fn transition_zone_covers(width: int, t: TransitionDef, c: int) -> bool {
    &&& t.from.x <= cell_x(width, c) < t.from.x + t.size.width
    &&& t.from.y <= cell_y(width, c) < t.from.y + t.size.height
}

impl AreaState {
    /// Whether `index` names a live prop.
    pub fn prop_index_valid(&self, index: usize) -> (r: bool)
        ensures
            r == (index < self.spec_props().len() && self.spec_props()[index as int] is Some),
    {
        if index >= self.props.len() {
            return false;
        }
        self.props[index].is_some()
    }

    /// The prop occupying `(x, y)`, if any.
    pub fn prop_index_at(&self, x: i32, y: i32) -> (r: Option<usize>)
        requires
            self.wf(),
        ensures
            r == (if valid_coords(self.spec_width() as int, self.spec_height() as int, x as int, y as int) {
                self.prop_at_cell(cell_index(self.spec_width() as int, x as int, y as int))
            } else {
                None::<usize>
            }),
    {
        if x < 0 || y < 0 || x >= self.width || y >= self.height {
            return None;
        }
        let c = cell_index_exec(self.width, self.height, x, y);
        self.prop_grid[c]
    }

    pub fn props_len(&self) -> (r: usize)
        ensures
            r == self.spec_props().len(),
    {
        self.props.len()
    }

    /// The prop in slot `index`.
    pub fn get_prop(&self, index: usize) -> (r: &PropState)
        requires
            index < self.spec_props().len(),
            self.spec_props()[index as int] is Some,
        ensures
            *r == self.spec_props()[index as int]->Some_0,
    {
        self.props[index].as_ref().unwrap()
    }

    /// Enables or disables the prop at `(x, y)` and says whether there
    /// was one.
    pub fn set_prop_enabled_at(&mut self, x: i32, y: i32, enabled: bool) -> (r: bool)
        requires
            old(self).wf(),
        ensures
            final(self).wf(),
            same_config(old(self), final(self)),
            same_entity_state(old(self), final(self)),
            same_surface_state(old(self), final(self)),
            same_zone_state(old(self), final(self)),
            same_fog_state(old(self), final(self)),
            final(self).spec_prop_vis() == old(self).spec_prop_vis(),
            final(self).spec_prop_pass() == old(self).spec_prop_pass(),
            forall|c: int|
                0 <= c < old(self).dim() ==> #[trigger] final(self).prop_at_cell(c) == old(self).prop_at_cell(c),
            r == (valid_coords(
                old(self).spec_width() as int,
                old(self).spec_height() as int,
                x as int,
                y as int,
            ) && old(self).prop_at_cell(
                cell_index(old(self).spec_width() as int, x as int, y as int),
            ) is Some),
            !r ==> final(self).spec_props() == old(self).spec_props(),
            r ==> ({
                let j = old(self).prop_at_cell(
                    cell_index(old(self).spec_width() as int, x as int, y as int),
                )->Some_0 as int;
                &&& final(self).spec_props().len() == old(self).spec_props().len()
                &&& (forall|j2: int|
                    0 <= j2 < old(self).spec_props().len() && j2 != j
                        ==> #[trigger] final(self).spec_props()[j2] == old(self).spec_props()[j2])
                &&& final(self).spec_props()[j] is Some
                &&& same_prop_shape(
                    final(self).spec_props()[j]->Some_0,
                    old(self).spec_props()[j]->Some_0,
                )
                &&& final(self).spec_props()[j]->Some_0.enabled == enabled
                &&& final(self).spec_props()[j]->Some_0.active == old(self).spec_props()[j]->Some_0.active
                &&& final(self).spec_props()[j]->Some_0.marked_for_removal == old(self).spec_props()[j]->Some_0.marked_for_removal
            }),
    {
        let ghost w = self.spec_width() as int;
        let ghost h = self.spec_height() as int;
        let index = match self.prop_index_at(x, y) {
            None => {
                return false;
            },
            Some(index) => index,
        };
        proof {
            let c = cell_index(w, x as int, y as int);
            lemma_cell_index_bijective(w, h, x as int, y as int);
            assert(self.prop_grid@[c] == Some(index));
            assert(index < self.props@.len() && self.props@[index as int] is Some);
        }
        let mut updated = match &self.props[index] {
            Some(p) => p.clone(),
            None => {
                return false;
            },
        };
        updated.set_enabled(enabled);
        self.props.set(index, Some(updated));
        proof {
            assert forall|c: int|
                0 <= c < self.dim() && (#[trigger] self.prop_grid@[c]) is Some implies {
                let j = self.prop_grid@[c]->Some_0 as int;
                &&& j < self.props@.len()
                &&& self.props@[j] is Some
                &&& prop_covers(self.props@[j]->Some_0, cell_x(w, c), cell_y(w, c))
            } by {
                assert(old(self).prop_grid@[c] == self.prop_grid@[c]);
            }
        }
        true
    }

    /// Toggles the prop in slot `index` between its active and inactive
    /// states; for a door this rewrites the visibility and passability
    /// overlays and notes a partial redraw.
    pub fn toggle_prop_active(&mut self, index: usize)
        requires
            old(self).wf(),
            index < old(self).spec_props().len(),
            old(self).spec_props()[index as int] is Some,
        ensures
            final(self).wf(),
            same_config(old(self), final(self)),
            same_entity_state(old(self), final(self)),
            same_surface_state(old(self), final(self)),
            same_zone_state(old(self), final(self)),
            final(self).spec_visible() == old(self).spec_visible(),
            final(self).spec_explored() == old(self).spec_explored(),
            forall|c: int|
                0 <= c < old(self).dim() ==> #[trigger] final(self).prop_at_cell(c) == old(self).prop_at_cell(c),
            final(self).spec_props().len() == old(self).spec_props().len(),
            forall|j2: int|
                0 <= j2 < old(self).spec_props().len() && j2 != index
                    ==> #[trigger] final(self).spec_props()[j2] == old(self).spec_props()[j2],
            ({
                let pre = old(self).spec_props()[index as int]->Some_0;
                let post = final(self).spec_props()[index as int]->Some_0;
                &&& final(self).spec_props()[index as int] is Some
                &&& same_prop_shape(post, pre)
                &&& post.active == !pre.active
                &&& post.enabled == pre.enabled
                &&& post.marked_for_removal == pre.marked_for_removal
            }),
            ({
                let pre = old(self).spec_props()[index as int]->Some_0;
                if pre.is_door {
                    final(self).spec_redraw() == (if old(self).spec_redraw() == PCVisRedraw::Not {
                        PCVisRedraw::Partial { delta_x: 0, delta_y: 0 }
                    } else {
                        old(self).spec_redraw()
                    })
                } else {
                    final(self).spec_redraw() == old(self).spec_redraw()
                }
            }),
            ({
                let pre = old(self).spec_props()[index as int]->Some_0;
                let flipped = final(self).spec_props()[index as int]->Some_0;
                if pre.is_door {
                    forall|c: int|
                        0 <= c < old(self).dim() ==> #[trigger] final(self).spec_prop_vis()[c]
                            == overlay_after(
                            flipped,
                            flipped.closed_invis@,
                            old(self).spec_prop_vis()[c],
                            cell_x(old(self).spec_width() as int, c),
                            cell_y(old(self).spec_width() as int, c),
                        ) && final(self).spec_prop_pass()[c] == overlay_after(
                            flipped,
                            flipped.closed_impass@,
                            old(self).spec_prop_pass()[c],
                            cell_x(old(self).spec_width() as int, c),
                            cell_y(old(self).spec_width() as int, c),
                        )
                } else {
                    final(self).spec_prop_vis() == old(self).spec_prop_vis() && final(self).spec_prop_pass() == old(self).spec_prop_pass()
                }
            }),
    {
        let mut updated = match &self.props[index] {
            Some(p) => p.clone(),
            None => {
                return ;
            },
        };
        updated.toggle_active();
        let is_door = updated.is_door;
        self.props.set(index, Some(updated));
        if !is_door {
            return ;
        }
        self.update_prop_vis_pass_grid(index);
        self.pc_vis_partial_redraw(0, 0);
    }

    /// Removes the first prop with the given hover text id anchored at
    /// `(x, y)`, if any.
    #[verifier::loop_isolation(false)]
    pub fn remove_matching_prop(&mut self, x: i32, y: i32, hover: u64)
        requires
            old(self).wf(),
        ensures
            final(self).wf(),
            same_config(old(self), final(self)),
            same_entity_state(old(self), final(self)),
            same_surface_state(old(self), final(self)),
            same_zone_state(old(self), final(self)),
            same_fog_state(old(self), final(self)),
            (forall|j: int|
                0 <= j < old(self).spec_props().len() ==> !old(self).prop_matches(j, x, y, hover))
                ==> same_prop_state(old(self), final(self)),
            (exists|j: int|
                0 <= j < old(self).spec_props().len() && old(self).prop_matches(j, x, y, hover))
                ==> ({
                let j = choose|j: int|
                    0 <= j < old(self).spec_props().len() && (#[trigger] old(self).prop_matches(
                        j,
                        x,
                        y,
                        hover,
                    )) && (forall|j2: int| 0 <= j2 < j ==> !old(self).prop_matches(j2, x, y, hover));
                final(self).spec_props() == old(self).spec_props().update(j, None::<PropState>)
            }),
    {
        let mut matching: Option<usize> = None;
        let mut j: usize = 0;
        while j < self.props.len()
            invariant
                j <= self.props@.len(),
                *self == *old(self),
                matching is None ==> (forall|j2: int|
                    0 <= j2 < j ==> !self.prop_matches(j2, x, y, hover)),
                matching matches Some(m) ==> (m < self.props@.len() && self.prop_matches(
                    m as int,
                    x,
                    y,
                    hover,
                ) && (forall|j2: int| 0 <= j2 < m ==> !self.prop_matches(j2, x, y, hover))),
            decreases self.props@.len() - j,
        {
            if matching.is_none() {
                let hit = match &self.props[j] {
                    Some(p) => (match p.hover_id {
                        Some(hid) => hid == hover,
                        None => false,
                    }) && p.location.x == x && p.location.y == y,
                    None => false,
                };
                if hit {
                    matching = Some(j);
                }
            }
            j += 1;
        }
        match matching {
            Some(m) => {
                self.remove_prop_arena_only(m);
            },
            None => (),
        }
    }

    /// Whether the prop in slot `j` is anchored at `(x, y)` and hovers the
    /// given text id.
    pub open spec fn prop_matches(&self, j: int, x: i32, y: i32, hover: u64) -> bool {
        &&& self.spec_props()[j] is Some
        &&& self.spec_props()[j]->Some_0.hover_id == Some(hover)
        &&& self.spec_props()[j]->Some_0.location.x == x
        &&& self.spec_props()[j]->Some_0.location.y == y
    }

    /// Sweeps out every prop marked for removal.
    #[verifier::loop_isolation(false)]
    pub fn update(&mut self)
        requires
            old(self).wf(),
        ensures
            final(self).wf(),
            same_config(old(self), final(self)),
            same_entity_state(old(self), final(self)),
            same_surface_state(old(self), final(self)),
            same_zone_state(old(self), final(self)),
            same_fog_state(old(self), final(self)),
            final(self).spec_prop_vis() == old(self).spec_prop_vis(),
            final(self).spec_prop_pass() == old(self).spec_prop_pass(),
            final(self).spec_props().len() == old(self).spec_props().len(),
            forall|j: int|
                0 <= j < old(self).spec_props().len() ==> #[trigger] final(self).spec_props()[j]
                    == (if old(self).spec_props()[j] is Some && old(self).spec_props()[j]->Some_0.marked_for_removal {
                    None::<PropState>
                } else {
                    old(self).spec_props()[j]
                }),
            forall|c: int|
                0 <= c < old(self).dim() && (#[trigger] final(self).prop_at_cell(c)) is Some
                    ==> final(self).prop_at_cell(c) == old(self).prop_at_cell(c),
    {
        let len = self.props.len();
        let mut index: usize = 0;
        while index < len
            invariant
                index <= len,
                len == old(self).spec_props().len(),
                self.wf(),
                same_config(old(self), self),
                same_entity_state(old(self), self),
                same_surface_state(old(self), self),
                same_zone_state(old(self), self),
                same_fog_state(old(self), self),
                self.spec_prop_vis() == old(self).spec_prop_vis(),
                self.spec_prop_pass() == old(self).spec_prop_pass(),
                self.spec_props().len() == old(self).spec_props().len(),
                forall|j: int|
                    0 <= j < index ==> #[trigger] self.spec_props()[j] == (if old(self).spec_props()[j] is Some
                        && old(self).spec_props()[j]->Some_0.marked_for_removal {
                        None::<PropState>
                    } else {
                        old(self).spec_props()[j]
                    }),
                forall|j: int|
                    index <= j < len ==> #[trigger] self.spec_props()[j] == old(self).spec_props()[j],
                forall|c: int|
                    0 <= c < old(self).dim() && (#[trigger] self.prop_at_cell(c)) is Some
                        ==> self.prop_at_cell(c) == old(self).prop_at_cell(c),
            decreases len - index,
        {
            let marked = match &self.props[index] {
                Some(p) => p.marked_for_removal,
                None => false,
            };
            if marked {
                self.remove_prop(index);
            }
            index += 1;
        }
    }

    /// Frees the prop slot and clears its own footprint cells, like
    /// `remove_prop`, looked up by slot.
    fn remove_prop_arena_only(&mut self, index: usize)
        requires
            old(self).wf(),
            index < old(self).spec_props().len(),
            old(self).spec_props()[index as int] is Some,
        ensures
            final(self).wf(),
            same_config(old(self), final(self)),
            same_entity_state(old(self), final(self)),
            same_surface_state(old(self), final(self)),
            same_zone_state(old(self), final(self)),
            same_fog_state(old(self), final(self)),
            final(self).spec_props() == old(self).spec_props().update(
                index as int,
                None::<PropState>,
            ),
    {
        self.remove_prop(index);
    }
}

/// Whether `x` is a live party member whose footprint overlaps another
/// live party member's.
pub open spec fn overlapped_party_member(a: &AreaState, x: usize) -> bool {
    &&& a.live(x)
    &&& a.entity(x).party_member
    &&& exists|b: usize|
        a.live(b) && b != x && (#[trigger] a.entity(b)).party_member && footprints_overlap(
            a.entity(x),
            a.entity(b),
        )
}

impl AreaState {
    /// Searches concentric square rings of radius one to three around the
    /// entity's current cell, in raster order, for the first cell that is
    /// passable when ignoring the entity itself.
    #[verifier::loop_isolation(false)]
    pub fn find_bump_position(&self, e: usize) -> (r: Option<(i32, i32)>)
        requires
            self.wf(),
            self.live(e),
        ensures
            r matches Some(p) ==> (self.cell_passable_ignoring(seq![e], p.0 as int, p.1 as int)
                && self.entity(e).location.x - 3 <= p.0 <= self.entity(e).location.x + 3
                && self.entity(e).location.y - 3 <= p.1 <= self.entity(e).location.y + 3 && !(p.0
                == self.entity(e).location.x && p.1 == self.entity(e).location.y)),
            r is None ==> (forall|dx: int, dy: int|
                -3 <= dx <= 3 && -3 <= dy <= 3 && !(dx == 0 && dy == 0) ==> !(
                #[trigger] self.cell_passable_ignoring(
                    seq![e],
                    self.entity(e).location.x + dx,
                    self.entity(e).location.y + dy,
                ))),
    {
        let (cx, cy) = match &self.entities[e] {
            Some(ent) => (ent.location.x, ent.location.y),
            None => (0, 0),
        };
        let mut to_ignore: Vec<usize> = Vec::new();
        to_ignore.push(e);
        proof {
            assert(to_ignore@ =~= seq![e]);
        }
        let mut radius: i32 = 1;
        while radius <= 3
            invariant
                1 <= radius <= 4,
                forall|dx: int, dy: int|
                    radius >= 2 && -(radius - 1) <= dx <= radius - 1 && -(radius - 1) <= dy
                        <= radius - 1 && !(dx == 0 && dy == 0) ==> !(
                    #[trigger] self.cell_passable_ignoring(seq![e], cx + dx, cy + dy)),
            decreases 4 - radius,
        {
            let mut dy = -radius;
            while dy <= radius
                invariant
                    1 <= radius <= 3,
                    -radius <= dy <= radius + 1,
                    forall|dx2: int, dy2: int|
                        -radius <= dx2 <= radius && -radius <= dy2 < dy && !(dx2 == 0 && dy2 == 0)
                            ==> !(#[trigger] self.cell_passable_ignoring(
                            seq![e],
                            cx + dx2,
                            cy + dy2,
                        )),
                decreases radius + 1 - dy,
            {
                let mut dx = -radius;
                while dx <= radius
                    invariant
                        1 <= radius <= 3,
                        -radius <= dy <= radius,
                        -radius <= dx <= radius + 1,
                        forall|dx2: int, dy2: int|
                            -radius <= dx2 <= radius && -radius <= dy2 < dy && !(dx2 == 0 && dy2
                                == 0) ==> !(#[trigger] self.cell_passable_ignoring(
                                seq![e],
                                cx + dx2,
                                cy + dy2,
                            )),
                        forall|dx2: int|
                            -radius <= dx2 < dx && !(dx2 == 0 && dy == 0) ==> !(
                            #[trigger] self.cell_passable_ignoring(
                                seq![e],
                                cx + dx2,
                                cy + dy as int,
                            )),
                    decreases radius + 1 - dx,
                {
                    let px64 = cx as i64 + dx as i64;
                    let py64 = cy as i64 + dy as i64;
                    if (dx != 0 || dy != 0) && px64 >= 0 && px64 <= 0x7FFF_FFFFi64 && py64 >= 0
                        && py64 <= 0x7FFF_FFFFi64 {
                        let px = px64 as i32;
                        let py = py64 as i32;
                        if self.point_entities_passable(&to_ignore, px, py) {
                            return Some((px, py));
                        }
                    } else if dx == 0 && dy == 0 {
                        proof {
                            assert(cx as int + dx == self.entity(e).location.x as int && cy as int
                                + dy == self.entity(e).location.y as int);
                        }
                    } else {
                        proof {
                            assert(!valid_coords(
                                self.spec_width() as int,
                                self.spec_height() as int,
                                cx + dx,
                                cy + dy as int,
                            ));
                        }
                    }
                    dx += 1;
                }
                dy += 1;
            }
            proof {
                assert forall|dx2: int, dy2: int|
                    radius + 1 >= 2 && -(radius + 1 - 1) <= dx2 <= radius + 1 - 1 && -(radius + 1
                        - 1) <= dy2 <= radius + 1 - 1 && !(dx2 == 0 && dy2 == 0) implies !(
                #[trigger] self.cell_passable_ignoring(seq![e], cx + dx2, cy + dy2)) by {}
            }
            radius += 1;
        }
        None
    }

    /// The live party member handles, in registration order.
    #[verifier::loop_isolation(false)]
    pub fn party_members(&self) -> (r: Vec<usize>)
        requires
            self.wf(),
        ensures
            no_dups(r@),
            forall|e: usize|
                #[trigger] r@.contains(e) <==> (self.live(e) && self.entity(e).party_member),
    {
        let mut r: Vec<usize> = Vec::new();
        let n = self.entity_list.len();
        let mut k: usize = 0;
        while k < n
            invariant
                k <= n,
                n == self.entity_list@.len(),
                no_dups(r@),
                forall|e: usize|
                    #[trigger] r@.contains(e) <==> (self.spec_entity_list().take(
                        k as int,
                    ).contains(e) && self.live(e) && self.entity(e).party_member),
            decreases n - k,
        {
            let ghost prefix = self.spec_entity_list().take(k as int);
            let e = self.entity_list[k];
            proof {
                assert(self.entity_list@[k as int] == e);
                assert(self.entity_list@.contains(e));
                assert(self.spec_entity_list().take(k + 1) =~= prefix.push(e));
            }
            let party = match &self.entities[e] {
                Some(ent) => ent.party_member,
                None => false,
            };
            if party && !contains_value(&r, e) {
                let ghost r0 = r@;
                r.push(e);
                proof {
                    assert forall|j: int, k2: int| 0 <= j < k2 < r@.len() implies r@[j]
                        != r@[k2] by {
                        if k2 == r@.len() - 1 {
                            assert(r0.contains(r0[j]));
                        }
                    }
                }
            }
            k += 1;
        }
        proof {
            assert(self.spec_entity_list().take(n as int) =~= self.spec_entity_list());
            assert forall|e: usize| (self.live(e) && self.entity(e).party_member) implies
                #[trigger] r@.contains(e) by {
                assert(self.entity_list@.contains(e));
            }
        }
        r
    }

    /// De-stacks overlapping party members after combat starts: the lower
    /// member of each overlapping pair is displaced to the first passable
    /// free cell within three rings of its position, re-running the move
    /// protocol.  A member with no free cell nearby is left in place and
    /// reported in the first component; the second holds the events of
    /// the displacements made.
    #[verifier::loop_isolation(false)]
    #[verifier::rlimit(100)]
    pub fn bump_party_overlap(&mut self) -> (r: (Vec<usize>, Vec<MoveEvents>))
        requires
            old(self).wf(),
        ensures
            final(self).wf(),
            same_config(old(self), final(self)),
            same_prop_state(old(self), final(self)),
            same_surface_state(old(self), final(self)),
            final(self).spec_visible() == old(self).spec_visible(),
            final(self).spec_explored() == old(self).spec_explored(),
            final(self).spec_entities().len() == old(self).spec_entities().len(),
            forall|e: usize| final(self).live(e) <==> #[trigger] old(self).live(e),
            forall|e: usize|
                #[trigger] old(self).live(e) ==> final(self).entity(e) == (EntityState {
                    location: final(self).entity(e).location,
                    ..old(self).entity(e)
                }),
            forall|x: usize|
                #[trigger] r.0@.contains(x) ==> overlapped_party_member(old(self), x),
            ((forall|e: usize|
                old(self).live(e) && (#[trigger] old(self).entity(e)).party_member ==> (old(self).entity(e).size.width == 1 && old(self).entity(e).size.height == 1)) && r.0@.len()
                == 0) ==> (forall|a: usize, b: usize|
                final(self).live(a) && final(self).live(b) && a != b && (#[trigger] final(self).entity(a)).party_member && (#[trigger] final(self).entity(b)).party_member
                    ==> !footprints_overlap(final(self).entity(a), final(self).entity(b))),
    {
        let ghost ones = forall|e: usize|
            old(self).live(e) && (#[trigger] old(self).entity(e)).party_member ==> (old(self).entity(e).size.width == 1 && old(self).entity(e).size.height == 1);
        let party = self.party_members();
        let mut failed: Vec<usize> = Vec::new();
        let mut moves: Vec<MoveEvents> = Vec::new();
        if party.len() < 2 {
            proof {
                assert forall|a: usize, b: usize|
                    self.live(a) && self.live(b) && a != b && (#[trigger] self.entity(a)).party_member && (#[trigger] self.entity(b)).party_member implies !footprints_overlap(
                    self.entity(a),
                    self.entity(b),
                ) by {
                    assert(party@.contains(a));
                    assert(party@.contains(b));
                    let ia = choose|ia: int| 0 <= ia < party@.len() && (#[trigger] party@[ia]) == a;
                    let ib = choose|ib: int| 0 <= ib < party@.len() && (#[trigger] party@[ib]) == b;
                    assert(ia == 0 && ib == 0);
                    assert(false);
                }
            }
            return (failed, moves);
        }

        let mut to_bump: Vec<usize> = Vec::new();
        let mut i: usize = 0;
        while i < party.len() - 1
            invariant
                self.wf(),
                *self == *old(self),
                i <= party@.len() - 1,
                party@.len() >= 2,
                no_dups(party@),
                forall|e: usize|
                    #[trigger] party@.contains(e) <==> (self.live(e) && self.entity(e).party_member),
                forall|e: usize| #[trigger] to_bump@.contains(e) ==> party@.contains(e),
                forall|e: usize|
                    #[trigger] to_bump@.contains(e) ==> overlapped_party_member(old(self), e),
                no_dups(to_bump@),
                forall|i2: int, j2: int|
                    #![trigger party@[i2], party@[j2]]
                    0 <= i2 < j2 < party@.len() && i2 < i && footprints_overlap(
                        self.entity(party@[i2]),
                        self.entity(party@[j2]),
                    ) ==> to_bump@.contains(party@[i2]),
            decreases party@.len() - i,
        {
            proof {
                assert(party@.contains(party@[i as int]));
            }
            let a = self.get_entity(party[i]);
            let mut j = i + 1;
            while j < party.len()
                invariant
                    self.wf(),
                    *self == *old(self),
                    i < j,
                    i <= party@.len() - 1,
                    j <= party@.len(),
                    party@.len() >= 2,
                    no_dups(party@),
                    a == self.entity(party@[i as int]),
                    forall|e: usize|
                        #[trigger] party@.contains(e) <==> (self.live(e) && self.entity(e).party_member),
                    forall|e: usize| #[trigger] to_bump@.contains(e) ==> party@.contains(e),
                    forall|e: usize|
                        #[trigger] to_bump@.contains(e) ==> overlapped_party_member(old(self), e),
                    no_dups(to_bump@),
                    forall|i2: int, j2: int|
                        #![trigger party@[i2], party@[j2]]
                        0 <= i2 < j2 < party@.len() && i2 < i && footprints_overlap(
                            self.entity(party@[i2]),
                            self.entity(party@[j2]),
                        ) ==> to_bump@.contains(party@[i2]),
                    forall|j2: int|
                        i < j2 < j && footprints_overlap(
                            self.entity(party@[i as int]),
                            self.entity(#[trigger] party@[j2]),
                        ) ==> to_bump@.contains(party@[i as int]),
                decreases party@.len() - j,
            {
                proof {
                    assert(party@.contains(party@[i as int]));
                    assert(party@.contains(party@[j as int]));
                }
                let b = self.get_entity(party[j]);
                if overlaps(&a, &b) {
                    proof {
                        assert(party@[i as int] != party@[j as int]);
                        assert(overlapped_party_member(old(self), party@[i as int]));
                    }
                    if !contains_value(&to_bump, party[i]) {
                        let ghost t0 = to_bump@;
                        to_bump.push(party[i]);
                        proof {
                            assert forall|j2: int, k2: int|
                                0 <= j2 < k2 < to_bump@.len() implies to_bump@[j2]
                                != to_bump@[k2] by {
                                if k2 == to_bump@.len() - 1 {
                                    assert(t0.contains(t0[j2]));
                                }
                            }
                        }
                    }
                }
                j += 1;
            }
            i += 1;
        }

        proof {
            if ones && failed@.len() == 0 {
                assert forall|a: usize, b: usize|
                    self.live(a) && self.live(b) && a != b && (#[trigger] self.entity(a)).party_member && (#[trigger] self.entity(b)).party_member && footprints_overlap(
                    self.entity(a),
                    self.entity(b),
                ) implies exists|t2: int|
                    0 <= t2 < to_bump@.len() && (to_bump@[t2] == a || to_bump@[t2] == b) by {
                    assert(party@.contains(a));
                    assert(party@.contains(b));
                    let ia = choose|ia: int| 0 <= ia < party@.len() && (#[trigger] party@[ia]) == a;
                    let ib = choose|ib: int| 0 <= ib < party@.len() && (#[trigger] party@[ib]) == b;
                    if ia < ib {
                        assert(to_bump@.contains(a));
                        let t2 = choose|t2: int|
                            0 <= t2 < to_bump@.len() && (#[trigger] to_bump@[t2]) == a;
                        assert(to_bump@[t2] == a);
                    } else {
                        assert(ib < ia);
                        assert(footprints_overlap(self.entity(b), self.entity(a)));
                        assert(to_bump@.contains(b));
                        let t2 = choose|t2: int|
                            0 <= t2 < to_bump@.len() && (#[trigger] to_bump@[t2]) == b;
                        assert(to_bump@[t2] == b);
                    }
                }
            }
        }

        let mut t: usize = 0;
        while t < to_bump.len()
            invariant
                self.wf(),
                same_config(old(self), self),
                same_prop_state(old(self), self),
                same_surface_state(old(self), self),
                forall|c: int|
                    0 <= c < old(self).dim() ==> #[trigger] self.trigger_at_cell(c) == old(self).trigger_at_cell(c),
                forall|c: int|
                    0 <= c < old(self).dim() ==> #[trigger] self.transition_at_cell(c) == old(self).transition_at_cell(c),
                self.spec_visible() == old(self).spec_visible(),
                self.spec_explored() == old(self).spec_explored(),
                self.spec_entities().len() == old(self).spec_entities().len(),
                forall|e: usize| self.live(e) <==> #[trigger] old(self).live(e),
                forall|e: usize|
                    #[trigger] old(self).live(e) ==> self.entity(e) == (EntityState {
                        location: self.entity(e).location,
                        ..old(self).entity(e)
                    }),
                t <= to_bump@.len(),
                forall|e: usize|
                    #[trigger] to_bump@.contains(e) ==> (self.live(e) && self.entity(e).party_member),
                forall|e: usize|
                    #[trigger] to_bump@.contains(e) ==> overlapped_party_member(old(self), e),
                forall|x: usize|
                    #[trigger] failed@.contains(x) ==> overlapped_party_member(old(self), x),
                (ones && failed@.len() == 0) ==> (forall|a: usize, b: usize|
                    self.live(a) && self.live(b) && a != b && (#[trigger] self.entity(a)).party_member && (#[trigger] self.entity(b)).party_member && footprints_overlap(
                        self.entity(a),
                        self.entity(b),
                    ) ==> (exists|t2: int|
                        t <= t2 < to_bump@.len() && (to_bump@[t2] == a || to_bump@[t2] == b))),
            decreases to_bump@.len() - t,
        {
            let ghost iter0 = *self;
            let m = to_bump[t];
            proof {
                assert(to_bump@[t as int] == m);
                assert(to_bump@.contains(m));
            }
            match self.find_bump_position(m) {
                None => {
                    failed.push(m);
                },
                Some((bx, by)) => {
                    let ghost pre_move = *self;
                    let ev = self.move_entity(m, bx, by);
                    match ev {
                        Some(ev) => {
                            moves.push(ev);
                            proof {
                                if ones && failed@.len() == 0 {
                                    bump_step_lemma(&pre_move, self, m, bx, by, t as int, to_bump@);
                                }
                            }
                        },
                        None => {
                            failed.push(m);
                        },
                    }
                },
            }
            t += 1;
        }
        (failed, moves)
    }
}

/// One step of overlap resolution: where the member `m`, one cell in
/// size, ends up on a cell that held no other entity, no pair that now
/// overlaps can involve `m`, so every overlapping pair keeps a witness
/// among the members yet to process.
#[verifier::rlimit(60)]
proof fn bump_step_lemma(
    pre: &AreaState,
    post: &AreaState,
    m: usize,
    bx: i32,
    by: i32,
    t: int,
    to_bump: Seq<usize>,
)
    requires
        pre.wf(),
        post.wf(),
        pre.live(m),
        post.live(m),
        pre.cell_passable_ignoring(seq![m], bx as int, by as int),
        post.entity(m).location == (Point { x: bx, y: by }),
        post.entity(m).size.width == 1,
        post.entity(m).size.height == 1,
        post.spec_entities().len() == pre.spec_entities().len(),
        forall|e: usize| post.live(e) <==> #[trigger] pre.live(e),
        forall|e: usize|
            #[trigger] pre.live(e) && e != m ==> post.entity(e) == pre.entity(e),
        0 <= t < to_bump.len(),
        to_bump[t] == m,
        forall|a: usize, b: usize|
            pre.live(a) && pre.live(b) && a != b && (#[trigger] pre.entity(a)).party_member && (
            #[trigger] pre.entity(b)).party_member && footprints_overlap(
                pre.entity(a),
                pre.entity(b),
            ) ==> (exists|t2: int| t <= t2 < to_bump.len() && (to_bump[t2] == a || to_bump[t2] == b)),
    ensures
        forall|a: usize, b: usize|
            post.live(a) && post.live(b) && a != b && (#[trigger] post.entity(a)).party_member && (
            #[trigger] post.entity(b)).party_member && footprints_overlap(
                post.entity(a),
                post.entity(b),
            ) ==> (exists|t2: int|
                t + 1 <= t2 < to_bump.len() && (to_bump[t2] == a || to_bump[t2] == b)),
{
    let w = pre.spec_width() as int;
    assert forall|b: usize|
        post.live(b) && b != m implies !footprints_overlap(post.entity(m), post.entity(b)) by {
        if footprints_overlap(post.entity(m), post.entity(b)) {
            assert(covers(post.entity(b), bx as int, by as int));
            assert(pre.live(b));
            assert(pre.entity(b) == post.entity(b));
            assert(valid_coords(pre.spec_width() as int, pre.spec_height() as int, bx as int, by as int));
            pre.lemma_occupancy_exact(bx as int, by as int, b);
            let c = cell_index(w, bx as int, by as int);
            assert(pre.occupants_at_cell(c).contains(b));
            let oc = pre.occupants_at_cell(c);
            let kk = choose|kk: int| 0 <= kk < oc.len() && (#[trigger] oc[kk]) == b;
            assert(seq![m].contains(oc[kk]));
            assert(seq![m][0] == m);
            assert(b == m);
            assert(false);
        }
    }
    assert forall|a: usize, b: usize|
        post.live(a) && post.live(b) && a != b && (#[trigger] post.entity(a)).party_member && (
        #[trigger] post.entity(b)).party_member && footprints_overlap(
            post.entity(a),
            post.entity(b),
        ) implies (exists|t2: int|
        t + 1 <= t2 < to_bump.len() && (to_bump[t2] == a || to_bump[t2] == b)) by {
        if a == m {
            assert(!footprints_overlap(post.entity(m), post.entity(b)));
            assert(false);
        } else if b == m {
            assert(footprints_overlap(post.entity(b), post.entity(a)) == footprints_overlap(
                post.entity(a),
                post.entity(b),
            ));
            assert(!footprints_overlap(post.entity(m), post.entity(a)));
            assert(false);
        } else {
            assert(pre.live(a) && pre.live(b));
            assert(pre.entity(a) == post.entity(a));
            assert(pre.entity(b) == post.entity(b));
            let t2 = choose|t2: int|
                t <= t2 < to_bump.len() && ((#[trigger] to_bump[t2]) == a || to_bump[t2] == b);
            assert(to_bump[t] == m);
            assert(t2 != t);
        }
    }
}

impl AreaState {
    /// Whether a footprint of the given size anchored at `(x, y)` is free
    /// for spawning: terrain passable throughout and no entity on any
    /// cell.  Props do not come into spawn placement.
    pub open spec fn spawn_spot_free(&self, x: int, y: int, size: Size) -> bool {
        forall|px: int, py: int|
            x <= px < x + size.width && y <= py < y + size.height ==> (#[trigger] self.terrain_passable_at(
                px,
                py,
            ) && self.occupants_at_cell(cell_index(self.spec_width() as int, px, py)).len() == 0)
    }

    /// The executable spawn-spot test.
    #[verifier::loop_isolation(false)]
    fn spawn_spot_free_exec(&self, x: i32, y: i32, size: Size) -> (r: bool)
        requires
            self.wf(),
            1 <= size.width <= 0x7FFF,
            1 <= size.height <= 0x7FFF,
        ensures
            r == self.spawn_spot_free(x as int, y as int, size),
    {
        let ghost w = self.spec_width() as int;
        let ghost h = self.spec_height() as int;
        if x < 0 || y < 0 || x > self.width - size.width || y > self.height - size.height {
            proof {
                if x < 0 || y < 0 || x as int > w || y as int > h {
                    assert(!self.terrain_passable_at(x as int, y as int));
                } else if x as int + size.width > w {
                    assert(!self.terrain_passable_at(w, y as int));
                } else {
                    assert(!self.terrain_passable_at(x as int, h));
                }
            }
            return false;
        }
        let mut py = y;
        while py < y + size.height
            invariant
                y <= py <= y + size.height,
                0 <= x,
                x + size.width <= self.spec_width(),
                0 <= y,
                y + size.height <= self.spec_height(),
                forall|qx: int, qy: int|
                    x <= qx < x + size.width && y <= qy < py ==> #[trigger] self.terrain_passable_at(
                        qx,
                        qy,
                    ),
                forall|qx: int, qy: int|
                    x <= qx < x + size.width && y <= qy < py ==> self.occupants_at_cell(
                        #[trigger] cell_index(w, qx, qy),
                    ).len() == 0,
            decreases y + size.height - py,
        {
            let mut px = x;
            while px < x + size.width
                invariant
                    x <= px <= x + size.width,
                    y <= py < y + size.height,
                    0 <= x,
                    x + size.width <= self.spec_width(),
                    0 <= y,
                    y + size.height <= self.spec_height(),
                    forall|qx: int, qy: int|
                        x <= qx < x + size.width && y <= qy < py
                            ==> #[trigger] self.terrain_passable_at(qx, qy),
                    forall|qx: int, qy: int|
                        x <= qx < x + size.width && y <= qy < py ==> self.occupants_at_cell(
                            #[trigger] cell_index(w, qx, qy),
                        ).len() == 0,
                    forall|qx: int|
                        x <= qx < px ==> #[trigger] self.terrain_passable_at(qx, py as int),
                    forall|qx: int|
                        x <= qx < px ==> self.occupants_at_cell(
                            #[trigger] cell_index(w, qx, py as int),
                        ).len() == 0,
                decreases x + size.width - px,
            {
                if !self.is_terrain_passable(px, py) {
                    return false;
                }
                let c = cell_index_exec(self.width, self.height, px, py);
                if self.entity_grid[c].len() != 0 {
                    return false;
                }
                px += 1;
            }
            py += 1;
        }
        true
    }

    /// The anchors within the scan rectangle at `loc` of extent `scan`
    /// where an entity of the given size could spawn: terrain passable
    /// over its whole footprint and no entity in the way, in raster
    /// order.
    #[verifier::loop_isolation(false)]
    pub fn get_available_locations(&self, size: Size, loc: Point, scan: Size) -> (r: Vec<Point>)
        requires
            self.wf(),
            1 <= size.width <= 0x7FFF,
            1 <= size.height <= 0x7FFF,
            -0x8000 <= scan.width <= 0x7FFF,
            -0x8000 <= scan.height <= 0x7FFF,
            -0x10000 <= loc.x <= 0x7FFF_0000,
            -0x10000 <= loc.y <= 0x7FFF_0000,
        ensures
            forall|p: Point|
                #[trigger] r@.contains(p) <==> (loc.x <= p.x < loc.x + scan.width - size.width + 1
                    && loc.y <= p.y < loc.y + scan.height - size.height + 1
                    && self.spawn_spot_free(p.x as int, p.y as int, size)),
    {
        let mut r: Vec<Point> = Vec::new();
        let min_x = loc.x;
        let min_y = loc.y;
        let max_x = loc.x + scan.width - size.width + 1;
        let max_y = loc.y + scan.height - size.height + 1;
        let mut y = min_y;
        if max_y < min_y || max_x < min_x {
            return r;
        }
        while y < max_y
            invariant
                min_y <= y <= max_y,
                forall|p: Point|
                    #[trigger] r@.contains(p) <==> (min_x <= p.x < max_x && min_y <= p.y < y
                        && self.spawn_spot_free(p.x as int, p.y as int, size)),
            decreases max_y - y,
        {
            let mut x = min_x;
            while x < max_x
                invariant
                    min_x <= x <= max_x,
                    min_y <= y < max_y,
                    forall|p: Point|
                        #[trigger] r@.contains(p) <==> ((min_x <= p.x < max_x && min_y <= p.y < y
                            && self.spawn_spot_free(p.x as int, p.y as int, size)) || (p.y == y
                            && min_x <= p.x < x && self.spawn_spot_free(
                            p.x as int,
                            p.y as int,
                            size,
                        ))),
                decreases max_x - x,
            {
                if self.spawn_spot_free_exec(x, y, size) {
                    let ghost r0 = r@;
                    r.push(Point { x, y });
                    proof {
                        assert forall|p: Point| #[trigger] r@.contains(p) implies (r0.contains(p)
                            || p == (Point { x, y })) by {
                            let j = choose|j: int| 0 <= j < r@.len() && (#[trigger] r@[j]) == p;
                            if j < r0.len() {
                                assert(r0[j] == p);
                            }
                        }
                    }
                }
                x += 1;
            }
            y += 1;
        }
        r
    }

    /// Populates the area from its definition: actors and props placed in
    /// order, a placement that fails being skipped, then triggers and
    /// transitions.  Nothing that was already explored is forgotten.
    #[verifier::loop_isolation(false)]
    pub fn populate(
        &mut self,
        actors: &Vec<EntityState>,
        props: &Vec<PropState>,
        triggers: &Vec<TriggerDef>,
        transitions: &Vec<TransitionDef>,
    )
        requires
            old(self).wf(),
        ensures
            final(self).wf(),
            same_config(old(self), final(self)),
            final(self).spec_visible() == old(self).spec_visible(),
            final(self).spec_explored() == old(self).spec_explored(),
            final(self).spec_redraw() == old(self).spec_redraw(),
            forall|k: int|
                #![trigger actors@[k]]
                0 <= k < actors@.len() && actors@[k].wf_spec() && old(self).ent_in_bounds(
                    actors@[k],
                ) ==> (exists|e: usize|
                    final(self).live(e) && #[trigger] final(self).entity(e) == actors@[k]),
            forall|k: int|
                #![trigger props@[k]]
                0 <= k < props@.len() && props@[k].wf_spec() && old(self).prop_in_bounds(props@[k])
                    ==> (exists|j: int|
                    {
                        &&& 0 <= j < final(self).spec_props().len()
                        &&& (#[trigger] final(self).spec_props()[j]) is Some
                        &&& same_prop_shape(final(self).spec_props()[j]->Some_0, props@[k])
                        &&& final(self).spec_props()[j]->Some_0.enabled == props@[k].enabled
                        &&& final(self).spec_props()[j]->Some_0.active == props@[k].active
                    }),
            final(self).spec_triggers() == old(self).spec_triggers() + triggers@.map_values(
                |d: TriggerDef| TriggerState { fired: false, enabled: d.initially_enabled },
            ),
            forall|c: int, k: int|
                #![trigger final(self).transition_at_cell(c), transitions@[k]]
                0 <= c < old(self).dim() && 0 <= k < transitions@.len() && old(self).zone_ok(
                    transitions@[k],
                ) && transition_zone_covers(old(self).spec_width() as int, transitions@[k], c) && (
                forall|k2: int|
                    k < k2 < transitions@.len() ==> !(old(self).zone_ok(#[trigger] transitions@[k2])
                        && transition_zone_covers(
                        old(self).spec_width() as int,
                        transitions@[k2],
                        c,
                    ))) ==> final(self).transition_at_cell(c) == Some(k as usize),
    {
        let ghost pre = *old(self);
        let mut k: usize = 0;
        while k < actors.len()
            invariant
                k <= actors@.len(),
                self.wf(),
                same_config(old(self), self),
                same_fog_state(old(self), self),
                same_zone_state(old(self), self),
                forall|k2: int|
                    #![trigger actors@[k2]]
                    0 <= k2 < k && actors@[k2].wf_spec() && old(self).ent_in_bounds(actors@[k2])
                        ==> (exists|e: usize|
                        self.live(e) && #[trigger] self.entity(e) == actors@[k2]),
            decreases actors@.len() - k,
        {
            let ghost before = *self;
            let ent = actors[k];
            let r = self.add_entity(ent);
            proof {
                if ent.wf_spec() && old(self).ent_in_bounds(ent) {
                    assert(before.ent_in_bounds(ent));
                    assert(r is Ok);
                }
                assert forall|k2: int|
                    #![trigger actors@[k2]]
                    0 <= k2 < k + 1 && actors@[k2].wf_spec() && old(self).ent_in_bounds(
                        actors@[k2],
                    ) implies (exists|e: usize|
                    self.live(e) && #[trigger] self.entity(e) == actors@[k2]) by {
                    if k2 < k {
                        let e = choose|e: usize|
                            before.live(e) && #[trigger] before.entity(e) == actors@[k2];
                        assert(self.live(e) && self.entity(e) == actors@[k2]);
                    } else {
                        let e = match r {
                            Ok((e, _)) => e,
                            Err(_) => 0,
                        };
                        assert(self.live(e) && self.entity(e) == ent);
                    }
                }
            }
            k += 1;
        }
        let ghost after_actors = *self;
        let mut k2: usize = 0;
        while k2 < props.len()
            invariant
                k2 <= props@.len(),
                self.wf(),
                same_config(old(self), self),
                same_fog_state(old(self), self),
                same_zone_state(old(self), self),
                same_entity_state(&after_actors, self),
                forall|k3: int|
                    #![trigger actors@[k3]]
                    0 <= k3 < actors@.len() && actors@[k3].wf_spec() && old(self).ent_in_bounds(
                        actors@[k3],
                    ) ==> (exists|e: usize|
                        after_actors.live(e) && #[trigger] after_actors.entity(e) == actors@[k3]),
                forall|k3: int|
                    #![trigger props@[k3]]
                    0 <= k3 < k2 && props@[k3].wf_spec() && old(self).prop_in_bounds(props@[k3])
                        ==> (exists|j: int|
                        {
                            &&& 0 <= j < self.spec_props().len()
                            &&& (#[trigger] self.spec_props()[j]) is Some
                            &&& same_prop_shape(self.spec_props()[j]->Some_0, props@[k3])
                            &&& self.spec_props()[j]->Some_0.enabled == props@[k3].enabled
                            &&& self.spec_props()[j]->Some_0.active == props@[k3].active
                        }),
            decreases props@.len() - k2,
        {
            let ghost before = *self;
            let prop = match &props[k2] {
                p => p.clone(),
            };
            let r = self.add_prop(prop);
            proof {
                if props@[k2 as int].wf_spec() && old(self).prop_in_bounds(props@[k2 as int]) {
                    assert(r is Ok);
                }
                assert forall|k3: int|
                    #![trigger props@[k3]]
                    0 <= k3 < k2 + 1 && props@[k3].wf_spec() && old(self).prop_in_bounds(
                        props@[k3],
                    ) implies (exists|j: int|
                    {
                        &&& 0 <= j < self.spec_props().len()
                        &&& (#[trigger] self.spec_props()[j]) is Some
                        &&& same_prop_shape(self.spec_props()[j]->Some_0, props@[k3])
                        &&& self.spec_props()[j]->Some_0.enabled == props@[k3].enabled
                        &&& self.spec_props()[j]->Some_0.active == props@[k3].active
                    }) by {
                    if k3 < k2 {
                        let j = choose|j: int|
                            {
                                &&& 0 <= j < before.spec_props().len()
                                &&& (#[trigger] before.spec_props()[j]) is Some
                                &&& same_prop_shape(before.spec_props()[j]->Some_0, props@[k3])
                                &&& before.spec_props()[j]->Some_0.enabled == props@[k3].enabled
                                &&& before.spec_props()[j]->Some_0.active == props@[k3].active
                            };
                        assert(self.spec_props()[j] == before.spec_props()[j]);
                    } else {
                        let j = match r {
                            Ok(j) => j,
                            Err(_) => 0,
                        } as int;
                        assert(self.spec_props()[j] is Some);
                    }
                }
            }
            k2 += 1;
        }
        let ghost after_props = *self;
        self.populate_triggers(triggers);
        let ghost after_trigs = *self;
        self.add_transitions(transitions);
        proof {
            assert(self.spec_triggers() =~= old(self).spec_triggers() + triggers@.map_values(
                |d: TriggerDef| TriggerState { fired: false, enabled: d.initially_enabled },
            ));
            assert forall|c: int, k3: int|
                #![trigger self.transition_at_cell(c), transitions@[k3]]
                0 <= c < old(self).dim() && 0 <= k3 < transitions@.len() && old(self).zone_ok(
                    transitions@[k3],
                ) && transition_zone_covers(old(self).spec_width() as int, transitions@[k3], c) && (
            forall|k4: int|
                k3 < k4 < transitions@.len() ==> !(old(self).zone_ok(#[trigger] transitions@[k4])
                    && transition_zone_covers(
                    old(self).spec_width() as int,
                    transitions@[k4],
                    c,
                ))) implies self.transition_at_cell(c) == Some(k3 as usize) by {
                assert(after_trigs.zone_ok(transitions@[k3]));
                assert forall|k4: int|
                    k3 < k4 < transitions@.len() implies !(after_trigs.zone_ok(
                    #[trigger] transitions@[k4],
                ) && transition_zone_covers(
                    old(self).spec_width() as int,
                    transitions@[k4],
                    c,
                )) by {
                    assert(after_trigs.zone_ok(transitions@[k4]) == old(self).zone_ok(
                        transitions@[k4],
                    ));
                }
            }
            assert forall|k3: int|
                #![trigger actors@[k3]]
                0 <= k3 < actors@.len() && actors@[k3].wf_spec() && old(self).ent_in_bounds(
                    actors@[k3],
                ) implies (exists|e: usize|
                self.live(e) && #[trigger] self.entity(e) == actors@[k3]) by {
                let e = choose|e: usize|
                    after_actors.live(e) && #[trigger] after_actors.entity(e) == actors@[k3];
                assert(after_props.live(e) && after_props.entity(e) == actors@[k3]);
                assert(self.live(e) && self.entity(e) == actors@[k3]);
            }
            assert forall|k3: int|
                #![trigger props@[k3]]
                0 <= k3 < props@.len() && props@[k3].wf_spec() && old(self).prop_in_bounds(
                    props@[k3],
                ) implies (exists|j: int|
                {
                    &&& 0 <= j < self.spec_props().len()
                    &&& (#[trigger] self.spec_props()[j]) is Some
                    &&& same_prop_shape(self.spec_props()[j]->Some_0, props@[k3])
                    &&& self.spec_props()[j]->Some_0.enabled == props@[k3].enabled
                    &&& self.spec_props()[j]->Some_0.active == props@[k3].active
                }) by {
                let j = choose|j: int|
                    {
                        &&& 0 <= j < after_props.spec_props().len()
                        &&& (#[trigger] after_props.spec_props()[j]) is Some
                        &&& same_prop_shape(after_props.spec_props()[j]->Some_0, props@[k3])
                        &&& after_props.spec_props()[j]->Some_0.enabled == props@[k3].enabled
                        &&& after_props.spec_props()[j]->Some_0.active == props@[k3].active
                    };
                assert(self.spec_props()[j] == after_props.spec_props()[j]);
            }
        }
    }
}

/// The outcome of repositioning a caller-owned surface: its translated
/// points, and the entities that left and entered its membership.
pub struct SurfaceMove {
    pub points: Vec<Point>,
    pub removed_from: Vec<usize>,
    pub added_to: Vec<usize>,
}

impl AreaState {
    /// The aura step of the move protocol: unregisters the surface from
    /// its old points, translates the points against the mover's
    /// displacement, re-registers them, and reports which entities to take
    /// off the surface and which to put onto it.
    pub fn move_surface(
        &mut self,
        index: usize,
        points: &Vec<Point>,
        d_x: i32,
        d_y: i32,
    ) -> (r: SurfaceMove)
        requires
            old(self).wf(),
            forall|k: int|
                0 <= k < points@.len() ==> (i32::MIN <= (#[trigger] points@[k]).x - d_x <= i32::MAX
                    && i32::MIN <= points@[k].y - d_y <= i32::MAX),
        ensures
            final(self).wf(),
            same_config(old(self), final(self)),
            same_entity_state(old(self), final(self)),
            same_prop_state(old(self), final(self)),
            same_zone_state(old(self), final(self)),
            same_fog_state(old(self), final(self)),
            r.points@.len() == points@.len(),
            forall|k: int|
                0 <= k < points@.len() ==> #[trigger] r.points@[k] == (Point {
                    x: (points@[k].x - d_x) as i32,
                    y: (points@[k].y - d_y) as i32,
                }),
            no_dups(r.removed_from@),
            no_dups(r.added_to@),
            forall|e: usize|
                #[trigger] r.removed_from@.contains(e) <==> (old(self).entity_on_points(e, points@)
                    && !old(self).entity_on_points(e, r.points@)),
            forall|e: usize|
                #[trigger] r.added_to@.contains(e) <==> (old(self).entity_on_points(e, r.points@)
                    && !old(self).entity_on_points(e, points@)),
    {
        let mut new_points: Vec<Point> = Vec::new();
        let mut k: usize = 0;
        while k < points.len()
            invariant
                k <= points@.len(),
                new_points@.len() == k,
                forall|k2: int|
                    0 <= k2 < points@.len() ==> (i32::MIN <= (#[trigger] points@[k2]).x - d_x
                        <= i32::MAX && i32::MIN <= points@[k2].y - d_y <= i32::MAX),
                forall|k2: int|
                    0 <= k2 < k ==> #[trigger] new_points@[k2] == (Point {
                        x: (points@[k2].x - d_x) as i32,
                        y: (points@[k2].y - d_y) as i32,
                    }),
            decreases points@.len() - k,
        {
            let p = points[k];
            new_points.push(Point { x: p.x - d_x, y: p.y - d_y });
            k += 1;
        }

        let old_entities = self.remove_surface(index, points);
        let ghost mid = *self;
        let new_entities = self.add_surface(index, &new_points);
        proof {
            let w = self.spec_width() as int;
            let h = self.spec_height() as int;
            assert forall|e: usize|
                mid.entity_on_points(e, new_points@) == old(self).entity_on_points(
                e,
                new_points@,
            ) by {
                if mid.entity_on_points(e, new_points@) {
                    let k2 = choose|k2: int|
                        0 <= k2 < new_points@.len() && valid_coords(
                            w,
                            h,
                            (#[trigger] new_points@[k2]).x as int,
                            new_points@[k2].y as int,
                        ) && mid.occupants_at_cell(
                            cell_index(w, new_points@[k2].x as int, new_points@[k2].y as int),
                        ).contains(e);
                    lemma_cell_index_bijective(
                        w,
                        h,
                        new_points@[k2].x as int,
                        new_points@[k2].y as int,
                    );
                    assert(old(self).occupants_at_cell(
                        cell_index(w, new_points@[k2].x as int, new_points@[k2].y as int),
                    ).contains(e));
                }
                if old(self).entity_on_points(e, new_points@) {
                    let k2 = choose|k2: int|
                        0 <= k2 < new_points@.len() && valid_coords(
                            w,
                            h,
                            (#[trigger] new_points@[k2]).x as int,
                            new_points@[k2].y as int,
                        ) && old(self).occupants_at_cell(
                            cell_index(w, new_points@[k2].x as int, new_points@[k2].y as int),
                        ).contains(e);
                    lemma_cell_index_bijective(
                        w,
                        h,
                        new_points@[k2].x as int,
                        new_points@[k2].y as int,
                    );
                    assert(mid.occupants_at_cell(
                        cell_index(w, new_points@[k2].x as int, new_points@[k2].y as int),
                    ).contains(e));
                }
            }
        }
        let removed_from = filter_membership(&old_entities, &new_entities, false);
        let added_to = filter_membership(&new_entities, &old_entities, false);
        proof {
            assert forall|e: usize|
                #[trigger] removed_from@.contains(e) <==> (old(self).entity_on_points(e, points@)
                    && !old(self).entity_on_points(e, new_points@)) by {
                assert(old_entities@.contains(e) == old(self).entity_on_points(e, points@));
                assert(new_entities@.contains(e) == mid.entity_on_points(e, new_points@));
            }
            assert forall|e: usize|
                #[trigger] added_to@.contains(e) <==> (old(self).entity_on_points(e, new_points@)
                    && !old(self).entity_on_points(e, points@)) by {
                assert(old_entities@.contains(e) == old(self).entity_on_points(e, points@));
                assert(new_entities@.contains(e) == mid.entity_on_points(e, new_points@));
            }
        }
        SurfaceMove { points: new_points, removed_from, added_to }
    }

    /// Whether the entity stands on any on-grid point of the list.
    pub open spec fn entity_on_points(&self, e: usize, points: Seq<Point>) -> bool {
        exists|k: int|
            0 <= k < points.len() && valid_coords(
                self.spec_width() as int,
                self.spec_height() as int,
                (#[trigger] points[k]).x as int,
                points[k].y as int,
            ) && self.occupants_at_cell(
                cell_index(self.spec_width() as int, points[k].x as int, points[k].y as int),
            ).contains(e)
    }
}

/// Whether `v` holds `value`.
/// Whether `v` holds `value`.
fn contains_value(v: &Vec<usize>, value: usize) -> (r: bool)
    ensures
        r == v@.contains(value),
{
    let mut i: usize = 0;
    while i < v.len()
        invariant
            i <= v@.len(),
            forall|j: int| 0 <= j < i ==> v@[j] != value,
        decreases v@.len() - i,
    {
        if v[i] == value {
            return true;
        }
        i += 1;
    }
    false
}

/// Adds to `dst` every element of `src` it does not yet hold.
fn merge_into(dst: &mut Vec<usize>, src: &Vec<usize>)
    requires
        no_dups(old(dst)@),
    ensures
        no_dups(final(dst)@),
        forall|s: usize|
            #[trigger] final(dst)@.contains(s) <==> (old(dst)@.contains(s) || src@.contains(s)),
{
    let mut i: usize = 0;
    while i < src.len()
        invariant
            i <= src@.len(),
            no_dups(dst@),
            forall|s: usize|
                #[trigger] dst@.contains(s) <==> (old(dst)@.contains(s) || src@.take(
                    i as int,
                ).contains(s)),
        decreases src@.len() - i,
    {
        let v = src[i];
        if !contains_value(dst, v) {
            dst.push(v);
        }
        proof {
            assert(src@.take(i + 1) =~= src@.take(i as int).push(src@[i as int]));
        }
        i += 1;
    }
    proof {
        assert(src@.take(src@.len() as int) =~= src@);
    }
}

/// Removes every occurrence of `value` from `v`, keeping the order of
/// the rest.
fn remove_value(v: &mut Vec<usize>, value: usize)
    ensures
        final(v)@.len() <= old(v)@.len(),
        forall|x: usize| #[trigger] final(v)@.contains(x) <==> (old(v)@.contains(x) && x != value),
        no_dups(old(v)@) ==> no_dups(final(v)@),
{
    let mut result: Vec<usize> = Vec::new();
    let mut i: usize = 0;
    let ghost mut origin: Seq<int> = Seq::empty();
    while i < v.len()
        invariant
            i <= v@.len(),
            result@.len() <= i,
            origin.len() == result@.len(),
            forall|j: int|
                0 <= j < result@.len() ==> 0 <= #[trigger] origin[j] < i && v@[origin[j]]
                    == result@[j] && result@[j] != value,
            forall|j: int, k: int| 0 <= j < k < result@.len() ==> origin[j] < origin[k],
            forall|x: usize|
                #[trigger] result@.contains(x) <==> (v@.take(i as int).contains(x) && x != value),
        decreases v@.len() - i,
    {
        let ghost prefix = v@.take(i as int);
        if v[i] != value {
            result.push(v[i]);
            proof {
                origin = origin.push(i as int);
            }
        }
        proof {
            assert(v@.take(i + 1) =~= prefix.push(v@[i as int]));
        }
        i += 1;
    }
    proof {
        assert(v@.take(v@.len() as int) =~= v@);
        if no_dups(v@) {
            assert forall|j: int, k: int| 0 <= j < k < result@.len() implies result@[j]
                != result@[k] by {
                assert(origin[j] < origin[k]);
                assert(v@[origin[j]] == result@[j] && v@[origin[k]] == result@[k]);
            }
        }
    }
    *v = result;
}

/// Whether every point of the list lies within a footprint of the given
/// size.
fn points_in_size(points: &Vec<Point>, size: Size) -> (r: bool)
    ensures
        r == (forall|k: int|
            0 <= k < points@.len() ==> rel_point_in_size(#[trigger] points@[k], size)),
{
    let mut i: usize = 0;
    while i < points.len()
        invariant
            i <= points@.len(),
            forall|k: int| 0 <= k < i ==> rel_point_in_size(#[trigger] points@[k], size),
        decreases points@.len() - i,
    {
        let p = points[i];
        if p.x < 0 || p.y < 0 || p.x >= size.width || p.y >= size.height {
            return false;
        }
        i += 1;
    }
    true
}

/// A vector holding `len` copies of `value`.
fn filled_vec<T: Copy>(len: usize, value: T) -> (v: Vec<T>)
    ensures
        v@.len() == len,
        forall|i: int| 0 <= i < len ==> v@[i] == value,
{
    let mut v: Vec<T> = Vec::new();
    let mut i: usize = 0;
    while i < len
        invariant
            i <= len,
            v@.len() == i,
            forall|j: int| 0 <= j < i ==> v@[j] == value,
        decreases len - i,
    {
        v.push(value);
        i += 1;
    }
    v
}

/// A vector of `len` empty occupancy lists.
fn filled_lists(len: usize) -> (v: Vec<Vec<usize>>)
    ensures
        v@.len() == len,
        forall|i: int| 0 <= i < len ==> (#[trigger] v@[i])@.len() == 0,
{
    let mut v: Vec<Vec<usize>> = Vec::new();
    let mut i: usize = 0;
    while i < len
        invariant
            i <= len,
            v@.len() == i,
            forall|j: int| 0 <= j < i ==> (#[trigger] v@[j])@.len() == 0,
        decreases len - i,
    {
        v.push(Vec::new());
        i += 1;
    }
    v
}

} // verus!
