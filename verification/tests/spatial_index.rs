use sulis::area_state::{AreaState, PCVisRedraw, TransitionDef, TriggerDef, TriggerRect, TriggerState};
use sulis::entity_state::{EntityState, Faction};
use sulis::prop_state::PropState;
use sulis::{Point, Size};

fn open_area(width: i32, height: i32) -> AreaState {
    let dim = (width * height) as usize;
    AreaState::new(width, height, vec![true; dim])
}

fn walker(x: i32, y: i32, party: bool, faction: Faction) -> EntityState {
    EntityState {
        location: Point { x, y },
        size: Size { width: 1, height: 1 },
        party_member: party,
        faction,
        melee: true,
        attack_disabled: false,
        dead: false,
        reach: 1,
    }
}

fn big_walker(x: i32, y: i32, w: i32, h: i32) -> EntityState {
    EntityState {
        location: Point { x, y },
        size: Size { width: w, height: h },
        party_member: false,
        faction: Faction::Neutral,
        melee: false,
        attack_disabled: false,
        dead: false,
        reach: 0,
    }
}

fn simple_prop(x: i32, y: i32, w: i32, h: i32) -> PropState {
    PropState {
        location: Point { x, y },
        size: Size { width: w, height: h },
        enabled: true,
        active: false,
        is_door: false,
        closed_invis: Vec::new(),
        closed_impass: Vec::new(),
        marked_for_removal: false,
        hover_id: None,
    }
}

/// Replays a fixed, scrambled sequence of add, move and remove calls and
/// checks after each step that the occupancy grid reports exactly the
/// live footprints.
#[test]
fn footprint_invariant_under_mutation() {
    let mut a = open_area(16, 16);
    let mut live: Vec<(usize, EntityState)> = Vec::new();
    // a small linear congruential stream drives the operation mix
    let mut seed: u64 = 0x2545_F491;
    let mut next = || {
        seed = seed.wrapping_mul(6364136223846793005).wrapping_add(1442695040888963407);
        (seed >> 33) as i32
    };
    for step in 0..60 {
        let r = next().rem_euclid(3);
        if r == 0 || live.is_empty() {
            let w = 1 + next().rem_euclid(3);
            let h = 1 + next().rem_euclid(3);
            let x = next().rem_euclid(16 - w + 1);
            let y = next().rem_euclid(16 - h + 1);
            let ent = big_walker(x, y, w, h);
            let (e, _surfs) = a.add_entity(ent).expect("in-bounds footprint");
            live.push((e, ent));
        } else if r == 1 {
            let pick = (next().rem_euclid(live.len() as i32)) as usize;
            let (e, ent) = live[pick];
            let x = next().rem_euclid(16 - ent.size.width + 1);
            let y = next().rem_euclid(16 - ent.size.height + 1);
            if let Some(_ev) = a.move_entity(e, x, y) {
                live[pick].1.location = Point { x, y };
            }
        } else {
            let pick = (next().rem_euclid(live.len() as i32)) as usize;
            let (e, _) = live.remove(pick);
            a.remove_entity(e).expect("live handle");
        }
        // quiescent point: every cell holds exactly the live footprints
        for cy in 0..16 {
            for cx in 0..16 {
                let cell = vec![Point { x: cx, y: cy }];
                let found = a.entities_with_points(&cell);
                let mut expected: Vec<usize> = live
                    .iter()
                    .filter(|(_, ent)| {
                        ent.location.x <= cx && cx < ent.location.x + ent.size.width
                            && ent.location.y <= cy && cy < ent.location.y + ent.size.height
                    })
                    .map(|(e, _)| *e)
                    .collect();
                let mut got = found.clone();
                got.sort();
                expected.sort();
                assert_eq!(got, expected, "cell ({cx},{cy}) wrong at step {step}");
            }
        }
    }
}

#[test]
fn surface_delta_exactness() {
    let mut a = open_area(12, 12);
    // surface 7 covers x in [0,4); surface 9 covers x in [2,6); both on row 5
    let pts7: Vec<Point> = (0..4).map(|x| Point { x, y: 5 }).collect();
    let pts9: Vec<Point> = (2..6).map(|x| Point { x, y: 5 }).collect();
    a.add_surface(7, &pts7);
    a.add_surface(9, &pts9);
    let (e, surfs) = a.add_entity(walker(0, 5, false, Faction::Neutral)).unwrap();
    assert_eq!(surfs, vec![7]);

    // step from x=0 (only surface 7) to x=3 (surfaces 7 and 9)
    let ev = a.move_entity(e, 3, 5).unwrap();
    assert!(ev.left.is_empty());
    assert_eq!(ev.entered, vec![9]);
    assert_eq!(ev.moved_within, vec![7]);

    // step from x=3 to x=4: leaves 7, stays within 9
    let ev = a.move_entity(e, 4, 5).unwrap();
    assert_eq!(ev.left, vec![7]);
    assert!(ev.entered.is_empty());
    assert_eq!(ev.moved_within, vec![9]);

    // step out of both
    let ev = a.move_entity(e, 8, 5).unwrap();
    assert_eq!(ev.left, vec![9]);
    assert!(ev.entered.is_empty());
    assert!(ev.moved_within.is_empty());
}

#[test]
fn aura_repositioning_delta() {
    let mut a = open_area(12, 12);
    let (bystander, _) = a.add_entity(walker(4, 5, false, Faction::Neutral)).unwrap();
    let (stranger, _) = a.add_entity(walker(9, 5, false, Faction::Neutral)).unwrap();
    // an aura over x in [3,6) on row 5
    let pts: Vec<Point> = (3..6).map(|x| Point { x, y: 5 }).collect();
    a.add_surface(2, &pts);
    // the carrier stepped one cell left, so the aura moves right by -d_x
    let moved = a.move_surface(2, &pts, -3, 0);
    assert_eq!(moved.points, (6..9).map(|x| Point { x, y: 5 }).collect::<Vec<Point>>());
    assert_eq!(moved.removed_from, vec![bystander]);
    assert!(moved.added_to.is_empty());
    // the next step reaches the stranger
    let moved = a.move_surface(2, &moved.points, -3, 0);
    assert_eq!(moved.added_to, vec![stranger]);
}

#[test]
fn explored_monotonicity() {
    let mut a = open_area(8, 8);
    let (e, _) = a.add_entity(walker(0, 0, true, Faction::Friendly)).unwrap();
    let dim = 64usize;
    let mut vis1 = vec![false; dim];
    vis1[0] = true;
    vis1[1] = true;
    a.apply_member_visibility(e, &vis1);
    assert!(a.is_pc_explored(0, 0));
    assert!(a.is_pc_explored(1, 0));
    assert!(!a.is_pc_explored(2, 0));

    // a later, smaller view never clears what was explored
    let mut vis2 = vec![false; dim];
    vis2[10] = true;
    a.apply_member_visibility(e, &vis2);
    assert!(a.is_pc_explored(0, 0));
    assert!(a.is_pc_explored(1, 0));
    assert!(a.is_pc_explored(2, 1));

    a.update_view_visibility();
    assert!(!a.is_pc_visible(0, 0));
    assert!(a.is_pc_visible(2, 1));
}

#[test]
fn saved_exploration_bit_layout() {
    let mut a = open_area(10, 10);
    // bit i of word w marks cell i + w*64
    let words = vec![(1u64 << 3) | (1u64 << 9), 1u64 << 2];
    a.apply_saved_exploration(&words);
    assert!(a.is_pc_explored(3, 0));
    assert!(a.is_pc_explored(9, 0));
    assert!(a.is_pc_explored(6, 6)); // cell 66 = 2 + 1*64
    assert!(!a.is_pc_explored(4, 0));
}

#[test]
fn overlap_resolution_terminates_clean() {
    let mut a = open_area(12, 12);
    let mut members = Vec::new();
    for _ in 0..4 {
        let (e, _) = a.add_entity(walker(5, 5, true, Faction::Friendly)).unwrap();
        members.push(e);
    }
    let (failed, _moves) = a.bump_party_overlap();
    assert!(failed.is_empty());
    let mut spots: Vec<(i32, i32)> = members
        .iter()
        .map(|e| {
            let ent = a.get_entity(*e);
            (ent.location.x, ent.location.y)
        })
        .collect();
    spots.sort();
    spots.dedup();
    assert_eq!(spots.len(), 4, "no two members share a cell");
}

#[test]
fn prop_overwrite_and_removal_quirk() {
    let mut a = open_area(10, 10);
    let first = a.add_prop(simple_prop(1, 1, 3, 1)).unwrap();
    let second = a.add_prop(simple_prop(2, 1, 3, 1)).unwrap();
    assert_ne!(first, second);
    // the later prop silently overwrites the shared cells
    assert_eq!(a.prop_index_at(1, 1), Some(first));
    assert_eq!(a.prop_index_at(2, 1), Some(second));
    assert_eq!(a.prop_index_at(3, 1), Some(second));
    // removing the later prop clears its whole footprint, leaving the
    // overwritten cells empty rather than restoring the earlier prop
    a.remove_prop(second);
    assert_eq!(a.prop_index_at(2, 1), None);
    assert_eq!(a.prop_index_at(1, 1), Some(first));
    assert!(a.prop_index_valid(first));
    assert!(!a.prop_index_valid(second));
}

#[test]
fn prop_out_of_bounds_is_invalid_data() {
    let mut a = open_area(10, 10);
    assert!(a.add_prop(simple_prop(8, 8, 3, 3)).is_err());
    assert!(a.add_prop(simple_prop(-1, 0, 2, 2)).is_err());
}

#[test]
fn door_toggle_rewrites_overlays() {
    let mut a = open_area(10, 10);
    let door = PropState {
        location: Point { x: 4, y: 4 },
        size: Size { width: 2, height: 1 },
        enabled: true,
        active: false, // closed
        is_door: true,
        closed_invis: vec![Point { x: 0, y: 0 }, Point { x: 1, y: 0 }],
        closed_impass: vec![Point { x: 0, y: 0 }, Point { x: 1, y: 0 }],
        marked_for_removal: false,
        hover_id: None,
    };
    let idx = a.add_prop(door).unwrap();
    assert!(!a.is_passable_size(Size { width: 1, height: 1 }, 4, 4));
    a.toggle_prop_active(idx); // open it
    assert!(a.is_passable_size(Size { width: 1, height: 1 }, 4, 4));
    assert!(matches!(a.take_pc_vis(), PCVisRedraw::Partial { delta_x: 0, delta_y: 0 }));
    assert!(matches!(a.take_pc_vis(), PCVisRedraw::Not));
}

#[test]
fn trigger_fires_at_most_once() {
    let mut a = open_area(10, 10);
    let defs = vec![TriggerDef {
        rect: Some(TriggerRect { location: Point { x: 3, y: 3 }, size: Size { width: 2, height: 2 } }),
        initially_enabled: true,
    }];
    a.populate_triggers(&defs);
    let (e, _) = a.add_entity(walker(0, 0, true, Faction::Friendly)).unwrap();
    let ev = a.move_entity(e, 3, 3).unwrap();
    assert_eq!(ev.fired_trigger, Some(0));
    let ev = a.move_entity(e, 4, 3).unwrap();
    assert_eq!(ev.fired_trigger, None, "a trigger fires only once");
}

#[test]
fn disabled_trigger_does_not_fire() {
    let mut a = open_area(10, 10);
    let defs = vec![TriggerDef {
        rect: Some(TriggerRect { location: Point { x: 3, y: 3 }, size: Size { width: 1, height: 1 } }),
        initially_enabled: false,
    }];
    a.populate_triggers(&defs);
    let (e, _) = a.add_entity(walker(0, 0, true, Faction::Friendly)).unwrap();
    let ev = a.move_entity(e, 3, 3).unwrap();
    assert_eq!(ev.fired_trigger, None);
    assert!(a.set_trigger_enabled_at(3, 3, true));
}

#[test]
fn save_with_too_many_triggers_is_fatal() {
    let mut a = open_area(10, 10);
    let defs = vec![TriggerDef { rect: None, initially_enabled: true }];
    let saved = vec![
        TriggerState { fired: true, enabled: true },
        TriggerState { fired: false, enabled: false },
    ];
    assert!(a.load_trigger_states(&defs, &saved).is_err());
    let saved_ok = vec![TriggerState { fired: true, enabled: true }];
    assert!(a.load_trigger_states(&defs, &saved_ok).is_ok());
}

#[test]
fn transitions_cover_their_zone() {
    let mut a = open_area(10, 10);
    let defs = vec![
        TransitionDef { from: Point { x: 0, y: 0 }, size: Size { width: 2, height: 2 } },
        TransitionDef { from: Point { x: 8, y: 8 }, size: Size { width: 2, height: 2 } },
    ];
    a.add_transitions(&defs);
    assert_eq!(a.get_transition_at(1, 1), Some(0));
    assert_eq!(a.get_transition_at(9, 8), Some(1));
    assert_eq!(a.get_transition_at(5, 5), None);
}

#[test]
fn threat_relation_follows_movement() {
    let mut a = open_area(12, 12);
    let (hero, _) = a.add_entity(walker(2, 2, true, Faction::Friendly)).unwrap();
    let (orc, _) = a.add_entity(walker(3, 2, false, Faction::Hostile)).unwrap();
    assert!(a.is_threatening(orc, hero));
    assert!(a.is_threatening(hero, orc));
    a.move_entity(hero, 9, 9).unwrap();
    assert!(!a.is_threatening(orc, hero));
    assert!(!a.is_threatening(hero, orc));
}

#[test]
fn passability_composes_three_layers() {
    let mut a = AreaState::new(6, 6, {
        let mut t = vec![true; 36];
        t[1] = false; // terrain blocks (1,0)
        t
    });
    assert!(!a.is_terrain_passable(1, 0));
    assert!(a.is_terrain_passable(2, 0));
    let (e, _) = a.add_entity(walker(3, 0, false, Faction::Neutral)).unwrap();
    assert!(!a.is_passable_size(Size { width: 1, height: 1 }, 3, 0));
    // the occupant itself may ignore its own cell
    assert!(a.is_passable(e, &vec![e], 3, 0));
    assert!(!a.is_passable(e, &Vec::new(), 3, 0));
}

#[test]
fn spawn_locations_scan() {
    let mut a = open_area(8, 8);
    let _ = a.add_entity(big_walker(1, 1, 2, 2));
    let spots = a.get_available_locations(
        Size { width: 2, height: 2 },
        Point { x: 0, y: 0 },
        Size { width: 4, height: 4 },
    );
    // anchors in [0,3) x [0,3) whose 2x2 footprint dodges the entity at (1,1)
    assert!(!spots.contains(&Point { x: 0, y: 0 }));
    assert!(!spots.contains(&Point { x: 1, y: 1 }));
    assert!(!spots.contains(&Point { x: 2, y: 2 }));
    assert!(spots.is_empty(), "a 2x2 footprint cannot dodge the occupant in a 4x4 scan");
}

#[test]
fn dangling_entity_reference_is_invalid_data() {
    let mut a = open_area(8, 8);
    assert!(a.remove_entity(0).is_err());
    let (e, _) = a.add_entity(walker(0, 0, false, Faction::Neutral)).unwrap();
    assert!(a.remove_entity(e).is_ok());
    assert!(a.remove_entity(e).is_err());
}

#[test]
fn marked_props_are_swept() {
    let mut a = open_area(8, 8);
    let mut p = simple_prop(0, 0, 1, 1);
    p.marked_for_removal = true;
    let keep = a.add_prop(simple_prop(3, 3, 1, 1)).unwrap();
    let drop = a.add_prop(p).unwrap();
    a.update();
    assert!(a.prop_index_valid(keep));
    assert!(!a.prop_index_valid(drop));
}
