use sulis::path_finder::{GridChecker, PathFinder};

fn steps_are_cardinal(path: &Vec<sulis::Point>) {
    for i in 1..path.len() {
        let dx = (path[i].x - path[i - 1].x).abs();
        let dy = (path[i].y - path[i - 1].y).abs();
        assert_eq!(dx + dy, 1, "step {} is not cardinal", i);
    }
}

#[test]
fn manhattan_baseline() {
    let mut pf = PathFinder::new(12, 12);
    let checker = GridChecker::new(12, 12);
    let path = pf.find(&checker, 0, 0, 5, 5, 0).expect("a path must exist on an empty grid");
    assert_eq!(path[0].x, 0);
    assert_eq!(path[0].y, 0);
    assert_eq!(path[path.len() - 1].x, 5);
    assert_eq!(path[path.len() - 1].y, 5);
    // ten unit-cost steps: the start cell plus ten cells, each one step
    // deeper than the one before
    assert_eq!(path.len(), 11);
    steps_are_cardinal(&path);
}

#[test]
fn obstacle_routing_through_the_gap() {
    let mut pf = PathFinder::new(12, 12);
    let mut checker = GridChecker::new(12, 12);
    for x in 0..12 {
        if x != 7 {
            checker.set_blocked(x, 3, true);
        }
    }
    let path = pf.find(&checker, 0, 0, 5, 8, 0).expect("the gap keeps a path open");
    assert_eq!(path[0].x, 0);
    assert_eq!(path[0].y, 0);
    assert_eq!(path[path.len() - 1].x, 5);
    assert_eq!(path[path.len() - 1].y, 8);
    steps_are_cardinal(&path);
    let mut crossed = false;
    for p in path.iter() {
        if p.y == 3 {
            assert_eq!(p.x, 7, "every crossing of the blocked row uses the open cell");
            crossed = true;
        }
    }
    assert!(crossed);
}

#[test]
fn iteration_cap_returns_none() {
    let mut pf = PathFinder::new(30, 30);
    let checker = GridChecker::new(30, 30);
    pf.set_max_iterations(3);
    assert!(pf.find(&checker, 0, 0, 20, 20, 0).is_none());
    // the same search with the default budget succeeds
    let mut pf2 = PathFinder::new(30, 30);
    assert!(pf2.find(&checker, 0, 0, 20, 20, 0).is_some());
}

#[test]
fn already_there_sentinel() {
    let mut pf = PathFinder::new(12, 12);
    let checker = GridChecker::new(12, 12);
    assert!(pf.find(&checker, 5, 5, 5, 5, 0).is_none());
    assert!(pf.find(&checker, 5, 5, 6, 6, 2).is_none());
}

#[test]
fn destination_off_grid_is_rejected() {
    let mut pf = PathFinder::new(12, 12);
    let checker = GridChecker::new(12, 12);
    assert!(pf.find(&checker, 0, 0, 12, 5, 0).is_none());
    assert!(pf.find(&checker, 0, 0, -1, 5, 0).is_none());
}

#[test]
fn walled_off_destination_has_no_path() {
    let mut pf = PathFinder::new(12, 12);
    let mut checker = GridChecker::new(12, 12);
    for x in 0..12 {
        checker.set_blocked(x, 3, true);
    }
    assert!(pf.find(&checker, 0, 0, 5, 8, 0).is_none());
}

#[test]
fn circular_acceptance_radius() {
    let mut pf = PathFinder::new(12, 12);
    let checker = GridChecker::new(12, 12);
    let path = pf.find(&checker, 0, 0, 8, 0, 3).expect("a path must exist");
    let last = path[path.len() - 1];
    let dx = (last.x - 8) as i64;
    let dy = (last.y - 0) as i64;
    assert!(dx * dx + dy * dy <= 9);
}
