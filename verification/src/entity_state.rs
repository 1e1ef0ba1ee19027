use vstd::prelude::*;

use crate::util::{Point, Size};

verus! {

/// The stance of an entity toward the player's party.
#[derive(Clone, Copy, Debug, PartialEq, Eq, Structural)]
pub enum Faction {
    Hostile,
    Neutral,
    Friendly,
}

impl Faction {
    /// Whether entities of faction `self` fight entities of `other`:
    /// hostiles and friendlies fight each other; neutrals fight nobody.
    pub open spec fn is_hostile_spec(&self, other: &Faction) -> bool {
        ||| (*self == Faction::Hostile && *other == Faction::Friendly)
        ||| (*self == Faction::Friendly && *other == Faction::Hostile)
    }

    pub fn is_hostile(&self, other: &Faction) -> (r: bool)
        ensures
            r == self.is_hostile_spec(other),
    {
        match (*self, *other) {
            (Faction::Hostile, Faction::Friendly) => true,
            (Faction::Friendly, Faction::Hostile) => true,
            _ => false,
        }
    }

    pub fn is_friendly(&self, other: &Faction) -> (r: bool)
        ensures
            r == (*self == *other),
    {
        match (*self, *other) {
            (Faction::Hostile, Faction::Hostile) => true,
            (Faction::Neutral, Faction::Neutral) => true,
            (Faction::Friendly, Faction::Friendly) => true,
            _ => false,
        }
    }
}

/// One live entity as the spatial index sees it: its footprint anchor and
/// extent, whether it is a tracked party member, and the combat attributes
/// that the melee-threat relation reads.  All values are plain, so a
/// record can be copied in and out of the arena freely.
#[derive(Clone, Copy, Debug, PartialEq, Eq, Structural)]
pub struct EntityState {
    pub location: Point,
    pub size: Size,
    pub party_member: bool,
    pub faction: Faction,
    pub melee: bool,
    pub attack_disabled: bool,
    pub dead: bool,
    pub reach: i32,
}

impl EntityState {
    /// A size that fits on a grid and a melee reach that squares without
    /// overflow.
    pub open spec fn wf_spec(&self) -> bool {
        &&& 1 <= self.size.width <= 0x7FFF
        &&& 1 <= self.size.height <= 0x7FFF
        &&& 0 <= self.reach <= 0x7FFF
    }

    pub fn is_party_member(&self) -> (r: bool)
        ensures
            r == self.party_member,
    {
        self.party_member
    }

    pub fn is_hostile(&self, other: &EntityState) -> (r: bool)
        ensures
            r == self.faction.is_hostile_spec(&other.faction),
    {
        self.faction.is_hostile(&other.faction)
    }

    pub fn is_friendly(&self, other: &EntityState) -> (r: bool)
        ensures
            r == (self.faction == other.faction),
    {
        self.faction.is_friendly(&other.faction)
    }

    pub fn center_x(&self) -> (r: i32)
        requires
            self.wf_spec(),
            self.location.x + self.size.width / 2 <= i32::MAX,
        ensures
            r == self.location.x + self.size.width / 2,
    {
        self.location.x + self.size.width / 2
    }

    pub fn center_y(&self) -> (r: i32)
        requires
            self.wf_spec(),
            self.location.y + self.size.height / 2 <= i32::MAX,
        ensures
            r == self.location.y + self.size.height / 2,
    {
        self.location.y + self.size.height / 2
    }
}

/// Whether the entity's footprint covers the cell `(x, y)`.
pub open spec fn covers(ent: EntityState, x: int, y: int) -> bool {
    &&& ent.location.x <= x < ent.location.x + ent.size.width
    &&& ent.location.y <= y < ent.location.y + ent.size.height
}

/// Whether two axis-aligned footprints share at least one cell.
pub open spec fn footprints_overlap(a: EntityState, b: EntityState) -> bool {
    &&& a.location.x < b.location.x + b.size.width
    &&& b.location.x < a.location.x + a.size.width
    &&& a.location.y < b.location.y + b.size.height
    &&& b.location.y < a.location.y + a.size.height
}

/// Two overlapping footprints share a concrete cell: the corner of the
/// intersection rectangle.
pub proof fn lemma_overlap_has_common_cell(a: EntityState, b: EntityState)
    requires
        a.wf_spec(),
        b.wf_spec(),
        footprints_overlap(a, b),
    ensures
        covers(a, max_int(a.location.x as int, b.location.x as int), max_int(a.location.y as int, b.location.y as int)),
        covers(b, max_int(a.location.x as int, b.location.x as int), max_int(a.location.y as int, b.location.y as int)),
{
}

/// The larger of two mathematical integers.
pub open spec fn max_int(a: int, b: int) -> int {
    if a >= b {
        a
    } else {
        b
    }
}

/// The squared gap between two footprints: zero where they touch or
/// overlap, else the squared Euclidean distance between their nearest
/// cells.
pub open spec fn rect_gap_sq(a: EntityState, b: EntityState) -> int {
    let gx = axis_gap(
        a.location.x as int,
        a.size.width as int,
        b.location.x as int,
        b.size.width as int,
    );
    let gy = axis_gap(
        a.location.y as int,
        a.size.height as int,
        b.location.y as int,
        b.size.height as int,
    );
    gx * gx + gy * gy
}

/// The gap between the intervals `[a0, a0+alen)` and `[b0, b0+blen)`,
/// zero where they intersect.
pub open spec fn axis_gap(a0: int, alen: int, b0: int, blen: int) -> int {
    if b0 >= a0 + alen {
        b0 - (a0 + alen - 1)
    } else if a0 >= b0 + blen {
        a0 - (b0 + blen - 1)
    } else {
        0
    }
}

/// Whether `att` threatens `def` with a melee attack: `att` must fight
/// with a melee weapon, be able to attack, be alive, and have `def`'s
/// footprint within its reach.
pub open spec fn is_threat_spec(att: EntityState, def: EntityState) -> bool {
    &&& att.melee
    &&& !att.attack_disabled
    &&& !att.dead
    &&& rect_gap_sq(att, def) <= att.reach * att.reach
}

/// The executable bounding-box overlap test.
pub fn overlaps(a: &EntityState, b: &EntityState) -> (r: bool)
    ensures
        r == footprints_overlap(*a, *b),
{
    let ax = a.location.x as i64;
    let ay = a.location.y as i64;
    let bx = b.location.x as i64;
    let by = b.location.y as i64;
    let aw = a.size.width as i64;
    let ah = a.size.height as i64;
    let bw = b.size.width as i64;
    let bh = b.size.height as i64;
    ax < bx + bw && bx < ax + aw && ay < by + bh && by < ay + ah
}

/// The executable melee-threat test.
pub fn is_threat(att: &EntityState, def: &EntityState) -> (r: bool)
    requires
        att.wf_spec(),
        def.wf_spec(),
        0 <= att.location.x,
        0 <= att.location.y,
        0 <= def.location.x,
        0 <= def.location.y,
    ensures
        r == is_threat_spec(*att, *def),
{
    if !att.melee || att.attack_disabled || att.dead {
        return false;
    }
    let gx = axis_gap_exec(att.location.x, att.size.width, def.location.x, def.size.width);
    let gy = axis_gap_exec(att.location.y, att.size.height, def.location.y, def.size.height);
    proof {
        assert(gx * gx + gy * gy < 0x7FFF_FFFF_FFFF_FFFFi64 && 0 <= gx * gx && 0 <= gy * gy)
            by (nonlinear_arith)
            requires
                0 <= gx < 0x8000_0000i64,
                0 <= gy < 0x8000_0000i64,
        ;
    }
    let reach = att.reach as i64;
    proof {
        assert(0 <= reach * reach <= 0x3FFF_0001i64) by (nonlinear_arith)
            requires
                0 <= reach <= 0x7FFF,
        ;
    }
    gx * gx + gy * gy <= reach * reach
}

/// The executable interval-gap computation.
fn axis_gap_exec(a0: i32, alen: i32, b0: i32, blen: i32) -> (r: i64)
    requires
        0 <= a0,
        0 <= b0,
        1 <= alen <= 0x7FFF,
        1 <= blen <= 0x7FFF,
    ensures
        r == axis_gap(a0 as int, alen as int, b0 as int, blen as int),
        0 <= r < 0x8000_0000i64,
{
    let a0 = a0 as i64;
    let alen = alen as i64;
    let b0 = b0 as i64;
    let blen = blen as i64;
    if b0 >= a0 + alen {
        b0 - (a0 + alen - 1)
    } else if a0 >= b0 + blen {
        a0 - (b0 + blen - 1)
    } else {
        0
    }
}

} // verus!
