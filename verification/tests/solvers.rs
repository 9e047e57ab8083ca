use std::cmp::Reverse;
use std::collections::{BinaryHeap, HashMap};
use grid_maps::hexagon::{HexagonMap, Point};
use grid_maps::search::explore::pick;
use grid_maps::search::{reachable_within, shortest_route, shortest_route_within, CostGraph};
use grid_maps::taxicab::{Direction, Joint, TaxicabMap};

/// One cell of a test map: whether it may be entered and what that costs.
#[derive(Clone, Copy, Debug, Default, PartialEq)]
struct Ground {
    open: bool,
    cost: u64,
}

struct Dice(u64);

impl Dice {
    fn roll(&mut self, sides: u64) -> u64 {
        self.0 = self.0.wrapping_mul(6364136223846793005).wrapping_add(1442695040888963407);
        (self.0 >> 33) % sides
    }
}

fn random_ground(dice: &mut Dice, least: u64) -> Ground {
    Ground { open: dice.roll(4) != 0, cost: least + dice.roll(4) }
}

/// Cheapest costs from `start` over a grid of `w` by `h` cells by plain
/// relaxation until nothing changes.
fn relax_grid(w: usize, h: usize, wrap: (bool, bool), ground: &Vec<Vec<Ground>>, start: (usize, usize)) -> Vec<Vec<Option<u128>>> {
    let mut best = vec![vec![None; h]; w];
    best[start.0][start.1] = Some(0u128);
    let mut changed = true;
    while changed {
        changed = false;
        for i in 0..w {
            for j in 0..h {
                let Some(here) = best[i][j] else { continue };
                let mut next: Vec<(usize, usize)> = vec![];
                if i + 1 < w { next.push((i + 1, j)) } else if wrap.0 { next.push((0, j)) }
                if i > 0 { next.push((i - 1, j)) } else if wrap.0 { next.push((w - 1, j)) }
                if j + 1 < h { next.push((i, j + 1)) } else if wrap.1 { next.push((i, 0)) }
                if j > 0 { next.push((i, j - 1)) } else if wrap.1 { next.push((i, h - 1)) }
                for (a, b) in next {
                    if !ground[a][b].open { continue }
                    let via = here + ground[a][b].cost as u128;
                    if best[a][b].map_or(true, |known| via < known) {
                        best[a][b] = Some(via);
                        changed = true;
                    }
                }
            }
        }
    }
    best
}

fn ground_map(w: usize, h: usize, ground: &Vec<Vec<Ground>>) -> TaxicabMap<Ground> {
    let mut map = TaxicabMap::rectangle(w, h, &Ground::default());
    for i in 0..w {
        for j in 0..h {
            map.set_point(i as isize, j as isize, ground[i][j]);
        }
    }
    map
}

fn check_taxicab_path(map: &TaxicabMap<Ground>, path: &Vec<(isize, isize)>, cost: u128, start: (isize, isize), end: (isize, isize)) {
    assert_eq!(path[0], start);
    assert_eq!(*path.last().unwrap(), end);
    let mut total = 0u128;
    for pair in path.windows(2) {
        assert_eq!((pair[0].0 - pair[1].0).abs() + (pair[0].1 - pair[1].1).abs(), 1);
        let ground = map.get_point(pair[1].0, pair[1].1).unwrap();
        assert!(ground.open);
        total += ground.cost as u128;
    }
    assert_eq!(total, cost);
}

/// The cost of a cheapest path from `start` to `end` over all the
/// coordinates that name cells of the map, found by settling coordinates
/// in the order of their cost, as far as the cost `cap`.
fn roam(map: &TaxicabMap<Ground>, start: (isize, isize), end: (isize, isize), cap: u128) -> Option<u128> {
    map.get_point(start.0, start.1)?;
    if !map.get_point(end.0, end.1)?.open {
        return None;
    }
    let mut best: HashMap<(isize, isize), u128> = HashMap::new();
    let mut open: BinaryHeap<Reverse<(u128, (isize, isize))>> = BinaryHeap::new();
    best.insert(start, 0);
    open.push(Reverse((0, start)));
    while let Some(Reverse((here, (x, y)))) = open.pop() {
        if best[&(x, y)] < here {
            continue;
        }
        if (x, y) == end {
            return Some(here);
        }
        for next in [(x + 1, y), (x - 1, y), (x, y + 1), (x, y - 1)] {
            let Some(ground) = map.get_point(next.0, next.1) else { continue };
            let via = here + ground.cost as u128;
            if !ground.open || via > cap {
                continue;
            }
            if best.get(&next).map_or(true, |known| via < *known) {
                best.insert(next, via);
                open.push(Reverse((via, next)));
            }
        }
    }
    None
}

#[test]
fn path_across_an_open_rectangle() {
    let map = TaxicabMap::<u8>::rectangle(3, 4, &0);
    let (path, cost) = map.path_finder((0, 0), (2, 3)).solve_path().unwrap();
    assert_eq!(cost, 5);
    assert_eq!(path.len(), 6);
    assert_eq!(path[0], (0, 0));
    assert_eq!(path[5], (2, 3));
    for pair in path.windows(2) {
        assert_eq!((pair[0].0 - pair[1].0).abs() + (pair[0].1 - pair[1].1).abs(), 1);
    }
    let (joints, cost) = map.path_finder((0, 0), (2, 3)).solve_joint().unwrap();
    assert_eq!(cost, 5);
    assert_eq!(joints.len(), 5);
    for (i, joint) in joints.iter().enumerate() {
        assert_eq!(joint.source(), path[i]);
        assert_eq!(joint.target(), path[i + 1]);
    }
}

#[test]
fn a_path_finder_answers_about_its_map() {
    let mut map = TaxicabMap::<u8>::rectangle(3, 3, &0);
    map.set_point(1, 0, 9);
    let finder = map
        .path_finder((0, 0), (2, 2))
        .with_passable(|x, y, _| (x, y) != (0, 1))
        .with_action_cost(|_, _, v| 1 + *v as u64);
    assert_eq!(finder.get_point(1, 0), Some(&9));
    assert_eq!(finder.get_point(3, 0), None);
    assert!(finder.has_point(2, 2));
    assert!(!finder.has_point(-1, 0));
    assert_eq!(finder.distance_to_start(2, 1), 3);
    assert_eq!(finder.distance_to_end(2, 1), 1);
    assert_eq!(finder.distance_to_end(-4, 7), 11);
    assert_eq!(finder.neighbors(0, 0), vec![((1, 0), 10)]);
    assert_eq!(finder.neighbors(1, 1), vec![((2, 1), 1), ((1, 2), 1), ((1, 0), 10)]);
    assert_eq!(finder.solve_path().map(|f| f.1), Some(13));
}

#[test]
fn path_to_a_cell_off_the_map_is_none() {
    let map = TaxicabMap::<u8>::rectangle(3, 4, &0);
    assert_eq!(map.path_finder((0, 0), (3, 0)).solve_path(), None);
    assert_eq!(map.path_finder((0, 0), (0, -1)).solve_path(), None);
    assert_eq!(map.path_finder((-1, 0), (0, 0)).solve_path(), None);
    assert_eq!(map.path_finder((0, 0), (9, 9)).solve_joint(), None);
    let hex = HexagonMap::<u8>::rhombus(3, 3);
    assert_eq!(hex.path_finder(&Point::new(0, 0), &Point::new(3, 3)).solve_path(), None);
    assert_eq!(hex.path_finder(&Point::new(-1, 0), &Point::new(1, 1)).solve_path(), None);
}

#[test]
fn path_to_a_closed_cell_is_none() {
    let map = TaxicabMap::<u8>::rectangle(3, 3, &0);
    let closed_end = map.path_finder((0, 0), (2, 2)).with_passable(|x, y, _| (x, y) != (2, 2));
    assert_eq!(closed_end.solve_path(), None);
    let closed_start = map.path_finder((0, 0), (2, 2)).with_passable(|x, y, _| (x, y) != (0, 0));
    assert_eq!(closed_start.solve_path().map(|f| f.1), Some(4));
    let same = map.path_finder((1, 1), (1, 1)).solve_path();
    assert_eq!(same, Some((vec![(1, 1)], 0)));
    let same_closed = map.path_finder((1, 1), (1, 1)).with_passable(|_, _, _| false).solve_path();
    assert_eq!(same_closed, None);
    let walled = map.path_finder((0, 0), (2, 2)).with_passable(|x, _, _| x != 1).solve_path();
    assert_eq!(walled, None);
}

#[test]
fn path_avoids_costly_cells() {
    let map = TaxicabMap::<u8>::rectangle(3, 3, &0);
    let finder = map.path_finder((0, 1), (2, 1)).with_action_cost(|x, y, _| if (x, y) == (1, 1) { 10 } else { 1 });
    let (path, cost) = finder.solve_path().unwrap();
    assert_eq!(cost, 4);
    assert_eq!(path.len(), 5);
    assert!(!path.contains(&(1, 1)));
    let cheap = map.path_finder((0, 1), (2, 1)).with_action_cost(|x, y, _| if (x, y) == (1, 1) { 2 } else { 1 });
    assert_eq!(cheap.solve_path(), Some((vec![(0, 1), (1, 1), (2, 1)], 3)));
    let free = map.path_finder((0, 0), (2, 2)).with_action_cost(|_, _, _| 0).solve_path().unwrap();
    assert_eq!(free.1, 0);
}

#[test]
fn path_on_a_wrapping_map_runs_from_the_start_to_the_end_as_given() {
    let mut map = TaxicabMap::<usize>::square(10, &1);
    map.set_cycle(true, true);
    map.shift_origin(-5, -5);
    let (path, cost) = map.path_finder((-9, -9), (9, 9)).solve_path().unwrap();
    assert_eq!(cost, 36);
    assert_eq!(path.len(), 37);
    assert_eq!(path[0], (-9, -9));
    assert_eq!(path[36], (9, 9));
    let (joints, cost) = map.path_finder((-9, -9), (9, 9)).solve_joint().unwrap();
    assert_eq!(cost, 36);
    assert_eq!(joints.len(), 36);
    for (i, joint) in joints.iter().enumerate() {
        assert_eq!(joint.source(), path[i]);
        assert_eq!(joint.target(), path[i + 1]);
    }
    let edge = map.path_finder((4, 0), (5, 0)).solve_joint().unwrap();
    assert_eq!(edge, (vec![Joint::new(4, 0, Direction::X(true))], 1));
}

#[test]
fn small_wrapping_maps_keep_the_coordinates_that_were_given() {
    let torus = TaxicabMap::<u8>::square(2, &0).with_cycle(true, true);
    assert_eq!(torus.path_finder((2, 0), (1, 0)).solve_path(), Some((vec![(2, 0), (1, 0)], 1)));
    let band = TaxicabMap::<u8>::rectangle(3, 1, &0).with_cycle(true, false);
    assert_eq!(band.path_finder((0, 0), (2, 0)).solve_path(), Some((vec![(0, 0), (1, 0), (2, 0)], 2)));
    let joints = band.path_finder((0, 0), (2, 0)).solve_joint().unwrap();
    assert_eq!(joints, (vec![Joint::new(0, 0, Direction::X(true)), Joint::new(1, 0, Direction::X(true))], 2));
    assert_eq!(joints.0[1].target(), (2, 0));
    assert_eq!(band.path_finder((0, 0), (-1, 0)).solve_path(), Some((vec![(0, 0), (-1, 0)], 1)));
    assert_eq!(band.path_finder((7, 0), (7, 0)).solve_path(), Some((vec![(7, 0)], 0)));
}

#[test]
fn a_path_on_a_wrapping_map_may_run_far_beyond_its_ends() {
    let band = TaxicabMap::<u8>::rectangle(3, 1, &0).with_cycle(true, false);
    let far = band.path_finder((0, 0), (7, 0)).solve_path().unwrap();
    assert_eq!(far.1, 7);
    assert_eq!(far.0.len(), 8);
    assert_eq!(far.0[7], (7, 0));
    let closed = band.path_finder((0, 0), (2, 0)).with_passable(|x, _, _| x.rem_euclid(3) != 1);
    assert_eq!(closed.solve_path(), None);
    let back = band.path_finder((0, 0), (-1, 0)).with_passable(|x, _, _| x.rem_euclid(3) != 1);
    assert_eq!(back.solve_path(), Some((vec![(0, 0), (-1, 0)], 1)));
}

#[test]
fn a_winding_corridor_is_followed_around_the_map() {
    let closed: [isize; 9] = [0, 1, 2, 0, 1, 0, 2, 1, 0];
    let map = TaxicabMap::<u8>::rectangle(3, 9, &0).with_cycle(true, false);
    let finder = map.path_finder((1, 0), (1, 8)).with_passable(move |x, y, _| closed[y as usize] != x);
    assert!(finder.can_search());
    let (path, cost) = finder.solve_path().unwrap();
    assert_eq!(cost, 16);
    assert_eq!(
        path,
        vec![
            (1, 0),
            (2, 0),
            (2, 1),
            (3, 1),
            (3, 2),
            (4, 2),
            (4, 3),
            (5, 3),
            (5, 4),
            (5, 5),
            (4, 5),
            (4, 6),
            (3, 6),
            (3, 7),
            (2, 7),
            (2, 8),
            (1, 8),
        ]
    );
    let joints = map.path_finder((1, 0), (1, 8)).with_passable(move |x, y, _| closed[y as usize] != x);
    let (joints, cost) = joints.solve_joint().unwrap();
    assert_eq!(cost, 16);
    assert_eq!(joints.len(), 16);
    assert_eq!(joints[7].source(), (5, 3));
    assert_eq!(joints[7].target(), (5, 4));
    let other_turn = map.path_finder((1, 0), (4, 8)).with_passable(move |x, y, _| closed[y as usize] != x);
    assert_eq!(other_turn.solve_path(), None);
    let plain = TaxicabMap::<u8>::rectangle(3, 9, &0);
    let walled = plain.path_finder((1, 0), (1, 8)).with_passable(move |x, y, _| closed[y as usize] != x);
    assert_eq!(walled.solve_path(), None);
}

#[test]
fn winding_corridors_are_searched_as_far_as_they_lead() {
    let mut dice = Dice(77);
    let mut wound = 0;
    for round in 0..400 {
        let h = 4 + dice.roll(9) as usize;
        let turn = h / 2;
        let mut closed: Vec<usize> = vec![dice.roll(3) as usize];
        for y in 1..h {
            let drift = if dice.roll(12) == 0 { 0 } else if y <= turn { 1 } else { 2 };
            closed.push((closed[y - 1] + drift) % 3);
        }
        let ground: Vec<Vec<Ground>> =
            (0..3).map(|x| (0..h).map(|y| Ground { open: closed[y] != x, cost: 1 }).collect()).collect();
        let mut map = ground_map(3, h, &ground);
        map.set_cycle(true, false);
        let from = (dice.roll(3) as isize, 0);
        let to = (dice.roll(3) as isize + 3 * (dice.roll(3) as isize - 1), h as isize - 1);
        let to = if round % 2 == 0 { (from.0, to.1) } else { to };
        let found = map.path_finder(from, to).with_passable(|_, _, g| g.open).with_action_cost(|_, _, g| g.cost).solve_path();
        assert_eq!(found.as_ref().map(|f| f.1), roam(&map, from, to, 200), "round {round}");
        if let Some((path, cost)) = found {
            check_taxicab_path(&map, &path, cost, from, to);
            if path.iter().any(|c| c.0 < from.0.min(to.0) - 3 || c.0 > from.0.max(to.0) + 3) {
                wound += 1;
            }
        }
    }
    assert!(wound > 0);
}

#[test]
fn a_search_on_a_large_wrapping_map_stays_near_its_ends() {
    let torus = TaxicabMap::<u8>::square(60, &0).with_cycle(true, true);
    assert!(torus.path_finder((0, 0), (20, 20)).can_search());
    let (path, cost) = torus.path_finder((0, 0), (20, 20)).solve_path().unwrap();
    assert_eq!(cost, 40);
    assert_eq!(path.len(), 41);
    let walled = torus.path_finder((0, 0), (70, 5)).with_passable(|x, y, _| x != 30 || y % 10 == 9);
    let (path, cost) = walled.solve_path().unwrap();
    assert_eq!(cost, 77);
    assert_eq!(path[0], (0, 0));
    assert_eq!(path[77], (70, 5));
    assert!(path.contains(&(30, -1)));
    let band = TaxicabMap::<u8>::rectangle(200, 40, &0).with_cycle(true, false);
    let (path, cost) = band.path_finder((190, 3), (205, 30)).with_action_cost(|_, _, _| 3).solve_path().unwrap();
    assert_eq!(cost, 126);
    assert_eq!(path.len(), 43);
}

#[test]
fn a_path_may_leave_the_window_where_the_map_wraps() {
    let map = TaxicabMap::<u8>::square(3, &0).with_cycle(false, true);
    let finder = map.path_finder((0, 0), (2, 0)).with_passable(|x, y, _| x != 1 || y == 2);
    let (path, cost) = finder.solve_path().unwrap();
    assert_eq!(cost, 4);
    assert_eq!(path, vec![(0, 0), (0, -1), (1, -1), (2, -1), (2, 0)]);
    let plain = TaxicabMap::<u8>::square(3, &0);
    let walled = plain.path_finder((0, 0), (2, 0)).with_passable(|x, y, _| x != 1 || y == 2);
    assert_eq!(walled.solve_path().map(|f| f.1), Some(6));
}

#[test]
fn taxicab_paths_are_as_cheap_as_relaxation_finds() {
    let mut dice = Dice(2024);
    for round in 0..120 {
        let wrap = (round % 4 == 1 || round % 4 == 3, round % 4 >= 2);
        let most = if wrap.0 || wrap.1 { 4 } else { 6 };
        let w = 1 + dice.roll(most) as usize;
        let h = 1 + dice.roll(most) as usize;
        let least = if round % 3 == 0 && !wrap.0 && !wrap.1 { 0 } else { 1 };
        let ground: Vec<Vec<Ground>> =
            (0..w).map(|_| (0..h).map(|_| random_ground(&mut dice, least)).collect()).collect();
        let mut map = ground_map(w, h, &ground);
        map.set_cycle(wrap.0, wrap.1);
        let start = (dice.roll(w as u64) as usize, dice.roll(h as u64) as usize);
        let end = (dice.roll(w as u64) as usize, dice.roll(h as u64) as usize);
        let shift = |v: usize, extent: usize, wraps: bool, dice: &mut Dice| {
            v as isize + if wraps { (dice.roll(5) as isize - 2) * extent as isize } else { 0 }
        };
        let from = (shift(start.0, w, wrap.0, &mut dice), shift(start.1, h, wrap.1, &mut dice));
        let to = (shift(end.0, w, wrap.0, &mut dice), shift(end.1, h, wrap.1, &mut dice));
        let found = map
            .path_finder(from, to)
            .with_passable(|_, _, g| g.open)
            .with_action_cost(|_, _, g| g.cost)
            .solve_path();
        let cap = found.as_ref().map_or(60, |f| f.1);
        assert_eq!(found.as_ref().map(|f| f.1), roam(&map, from, to, cap), "round {round}");
        if let Some((path, cost)) = found {
            check_taxicab_path(&map, &path, cost, from, to);
        }
    }
}

#[test]
fn taxicab_action_field_of_two_steps_is_the_disk() {
    let mut map = TaxicabMap::<u8>::square(9, &0);
    map.shift_origin(-4, -4);
    let field = map.action_field((0, 0), 2).solve();
    assert_eq!(field.len(), 13);
    assert_eq!(field[0], (0, (0, 0)));
    let mut expected: Vec<(u128, (isize, isize))> = vec![];
    for x in -2..=2isize {
        for y in -2..=2isize {
            if x.abs() + y.abs() <= 2 {
                expected.push(((x.abs() + y.abs()) as u128, (x, y)));
            }
        }
    }
    expected.sort();
    assert_eq!(field, expected);
    assert_eq!(field.iter().filter(|e| e.0 == 1).count(), 4);
    assert_eq!(field.iter().filter(|e| e.0 == 2).count(), 8);
}

#[test]
fn action_field_stops_at_the_budget_and_at_closed_cells() {
    let map = TaxicabMap::<u8>::rectangle(4, 1, &0);
    assert_eq!(map.action_field((0, 0), 0).solve(), vec![(0, (0, 0))]);
    assert_eq!(map.action_field((0, 0), 2).solve(), vec![(0, (0, 0)), (1, (1, 0)), (2, (2, 0))]);
    assert_eq!(map.action_field((0, 0), 99).solve().len(), 4);
    assert_eq!(map.action_field((7, 7), 99).solve(), vec![]);
    let blocked = map.action_field((0, 0), 99).with_passable(|x, _, _| x != 2).solve();
    assert_eq!(blocked, vec![(0, (0, 0)), (1, (1, 0))]);
    let costly = map.action_field((0, 0), 5).with_cost(|x, _, _| 2 * x as u64).solve();
    assert_eq!(costly, vec![(0, (0, 0)), (2, (1, 0))]);
    let closed_start = map.action_field((1, 0), 1).with_passable(|x, _, _| x != 1).solve();
    assert_eq!(closed_start, vec![(0, (1, 0)), (1, (0, 0)), (1, (2, 0))]);
}

#[test]
fn action_field_orders_equal_costs_by_coordinate() {
    let map = TaxicabMap::<u8>::rectangle(3, 3, &0);
    let field = map.action_field((2, 2), 10).with_cost(|_, _, _| 0).solve();
    let expected: Vec<(u128, (isize, isize))> =
        (0..3).flat_map(|x| (0..3).map(move |y| (0u128, (x, y)))).collect();
    assert_eq!(field, expected);
    let mixed = map.action_field((1, 1), 1).with_cost(|x, y, _| if x == y { 0 } else { 1 }).solve();
    assert_eq!(
        mixed,
        vec![(0, (1, 1)), (1, (0, 0)), (1, (0, 1)), (1, (1, 0)), (1, (1, 2)), (1, (2, 1)), (1, (2, 2))]
    );
}

#[test]
fn taxicab_action_fields_match_relaxation() {
    let mut dice = Dice(77);
    for round in 0..120 {
        let w = 1 + dice.roll(6) as usize;
        let h = 1 + dice.roll(6) as usize;
        let wrap = (round % 4 == 1 || round % 4 == 3, round % 4 >= 2);
        let least = if round % 3 == 0 { 0 } else { 1 };
        let ground: Vec<Vec<Ground>> =
            (0..w).map(|_| (0..h).map(|_| random_ground(&mut dice, least)).collect()).collect();
        let mut map = ground_map(w, h, &ground);
        map.set_cycle(wrap.0, wrap.1);
        let start = (dice.roll(w as u64) as usize, dice.roll(h as u64) as usize);
        let budget = dice.roll(9) as u128;
        let best = relax_grid(w, h, wrap, &ground, start);
        let mut expected: Vec<(u128, (isize, isize))> = vec![];
        for i in 0..w {
            for j in 0..h {
                if let Some(c) = best[i][j] {
                    if c <= budget {
                        expected.push((c, (i as isize, j as isize)));
                    }
                }
            }
        }
        expected.sort();
        let field = map
            .action_field((start.0 as isize, start.1 as isize), budget)
            .with_passable(|_, _, g| g.open)
            .with_cost(|_, _, g| g.cost)
            .solve();
        assert_eq!(field, expected, "round {round}");
    }
}

fn hex_neighbours(p: Point) -> [Point; 6] {
    [
        Point::new(p.x + 1, p.y - 1),
        Point::new(p.x - 1, p.y + 1),
        Point::new(p.x + 1, p.y),
        Point::new(p.x - 1, p.y),
        Point::new(p.x, p.y - 1),
        Point::new(p.x, p.y + 1),
    ]
}

/// Cheapest costs from `start` over the cells of a hexagon map by plain
/// relaxation until nothing changes.
fn relax_hex(map: &HexagonMap<Ground>, start: Point) -> Vec<(Point, Option<u128>)> {
    let points = map.points();
    let mut best: Vec<Option<u128>> = points.iter().map(|p| if *p == start { Some(0) } else { None }).collect();
    let mut changed = true;
    while changed {
        changed = false;
        for i in 0..points.len() {
            let Some(here) = best[i] else { continue };
            for q in hex_neighbours(points[i]) {
                let Some(j) = points.iter().position(|p| *p == q) else { continue };
                let ground = map.get_point(q).unwrap();
                if !ground.open { continue }
                let via = here + ground.cost as u128;
                if best[j].map_or(true, |known| via < known) {
                    best[j] = Some(via);
                    changed = true;
                }
            }
        }
    }
    points.into_iter().zip(best).collect()
}

fn random_hex_map(dice: &mut Dice, least: u64) -> HexagonMap<Ground> {
    let rows = 1 + dice.roll(6) as usize;
    let columns = 1 + dice.roll(6) as usize;
    let mut map = HexagonMap::<Ground>::width_first(rows, columns, dice.roll(2) == 0);
    for p in map.points() {
        if dice.roll(6) == 0 {
            map.remove_point(p);
        } else {
            *map.mut_point(p).unwrap() = random_ground(dice, least);
        }
    }
    if map.count_points() == 0 {
        map.add_point(Point::new(0, 0), random_ground(dice, least));
    }
    map
}

fn check_hex_path(map: &HexagonMap<Ground>, path: &Vec<Point>, cost: u128, start: Point, end: Point) {
    assert_eq!(path[0], start);
    assert_eq!(*path.last().unwrap(), end);
    let mut total = 0u128;
    for pair in path.windows(2) {
        assert!(hex_neighbours(pair[0]).contains(&pair[1]));
        let ground = map.get_point(pair[1]).unwrap();
        assert!(ground.open);
        total += ground.cost as u128;
    }
    assert_eq!(total, cost);
}

#[test]
fn hex_paths_are_as_cheap_as_relaxation_finds() {
    let mut dice = Dice(4711);
    for round in 0..120 {
        let least = if round % 3 == 0 { 0 } else { 1 };
        let map = random_hex_map(&mut dice, least);
        let points = map.points();
        let start = points[dice.roll(points.len() as u64) as usize];
        let end = points[dice.roll(points.len() as u64) as usize];
        let best = relax_hex(&map, start);
        let reached = best.iter().find(|e| e.0 == end).unwrap().1;
        let expected = if map.get_point(end).unwrap().open { reached } else { None };
        let found = map
            .path_finder(&start, &end)
            .with_passable(|_, g| g.open)
            .with_cost(|_, g| g.cost)
            .solve_path();
        assert_eq!(found.as_ref().map(|f| f.1), expected, "round {round}");
        if let Some((path, cost)) = found {
            check_hex_path(&map, &path, cost, start, end);
        }
    }
}

#[test]
fn hex_path_across_an_open_rhombus() {
    let map = HexagonMap::<u8>::rhombus(4, 4);
    let finder = map.path_finder(&Point::new(0, 0), &Point::new(3, 3));
    assert_eq!(finder.distance_to_start(&Point::new(3, 3)), 6);
    assert_eq!(finder.distance_to_end(&Point::new(3, 3)), 0);
    assert_eq!(finder.distance_to_end(&Point::new(2, 3)), 1);
    assert!(finder.has_point(&Point::new(3, 0)));
    assert!(!finder.has_point(&Point::new(4, 0)));
    assert_eq!(finder.get_point(&Point::new(1, 1)), Some(&0));
    assert_eq!(finder.neighbors(&Point::new(0, 0)), vec![Point::new(1, 0), Point::new(0, 1)]);
    let (path, cost) = finder.solve_path().unwrap();
    assert_eq!(cost, 6);
    assert_eq!(path.len(), 7);
    let diagonal = map.path_finder(&Point::new(0, 3), &Point::new(3, 0)).solve_path().unwrap();
    assert_eq!(diagonal, (vec![Point::new(0, 3), Point::new(1, 2), Point::new(2, 1), Point::new(3, 0)], 3));
    let joints = map.path_finder(&Point::new(0, 3), &Point::new(3, 0)).solve_joint().unwrap();
    let step = grid_maps::hexagon::Direction::X(true);
    assert_eq!(
        joints,
        (
            vec![
                grid_maps::hexagon::Joint::new(&Point::new(0, 3), step),
                grid_maps::hexagon::Joint::new(&Point::new(1, 2), step),
                grid_maps::hexagon::Joint::new(&Point::new(2, 1), step)
            ],
            3
        )
    );
    assert_eq!(map.path_finder(&Point::new(1, 1), &Point::new(1, 1)).solve_joint(), Some((vec![], 0)));
    assert_eq!(map.path_finder(&Point::new(1, 1), &Point::new(9, 1)).solve_joint(), None);
}

#[test]
fn hex_path_within_a_limit() {
    let map = HexagonMap::<u8>::rhombus(4, 1);
    let finder = map.path_finder(&Point::new(0, 0), &Point::new(3, 0));
    assert_eq!(finder.with_action(Some(2)).solve_path(), None);
    let finder = map.path_finder(&Point::new(0, 0), &Point::new(3, 0));
    assert_eq!(finder.with_action(Some(3)).solve_path().map(|f| f.1), Some(3));
    let finder = map.path_finder(&Point::new(0, 0), &Point::new(3, 0));
    assert_eq!(finder.with_action(Some(2)).with_action(None).solve_path().map(|f| f.1), Some(3));
    let closed = map.path_finder(&Point::new(0, 0), &Point::new(3, 0)).with_passable(|p, _| p.x != 2);
    assert_eq!(closed.neighbors(&Point::new(1, 0)), vec![Point::new(0, 0)]);
    assert_eq!(closed.solve_path(), None);
}

#[test]
fn hex_action_field_of_two_steps_is_the_disk() {
    let mut map = HexagonMap::<u8>::new();
    for x in -4..=4 {
        for y in -4..=4 {
            map.add_point(Point::new(x, y), 0);
        }
    }
    let field = map.action_field(Point::new(0, 0), 2).solve();
    assert_eq!(field.len(), 19);
    assert_eq!(field[0], (0, Point::new(0, 0)));
    assert_eq!(field.iter().filter(|e| e.0 == 1).count(), 6);
    assert_eq!(field.iter().filter(|e| e.0 == 2).count(), 12);
    let centre = Point::new(0, 0);
    let mut disk: Vec<(u128, Point)> = vec![(0, centre)];
    for n in 1..=2usize {
        for p in map.around_points(&centre, n) {
            disk.push((n as u128, p));
        }
    }
    disk.sort();
    assert_eq!(field, disk);
    for (cost, p) in &field {
        assert_eq!(*cost, centre.hex_distance(p) as u128);
    }
}

#[test]
fn hex_action_fields_match_relaxation() {
    let mut dice = Dice(31337);
    for round in 0..120 {
        let least = if round % 3 == 0 { 0 } else { 1 };
        let map = random_hex_map(&mut dice, least);
        let points = map.points();
        let start = points[dice.roll(points.len() as u64) as usize];
        let budget = dice.roll(9) as u128;
        let mut expected: Vec<(u128, Point)> = relax_hex(&map, start)
            .into_iter()
            .filter_map(|(p, c)| c.filter(|c| *c <= budget).map(|c| (c, p)))
            .collect();
        expected.sort();
        let solver = map.action_field(start, budget).with_passable(|_, g| g.open).with_cost(|_, g| g.cost);
        let field = solver.solve();
        assert_eq!(field, expected, "round {round}");
    }
}

#[test]
fn hex_action_field_neighbours_carry_their_cost() {
    let map = HexagonMap::<u8>::rhombus(3, 3);
    let solver = map
        .action_field(Point::new(1, 1), 5)
        .with_passable(|p, _| p.y != 0)
        .with_cost(|p, _| (p.x + p.y) as u64);
    assert_eq!(
        solver.neighbors(&Point::new(1, 1)),
        vec![(Point::new(0, 2), 2), (Point::new(2, 1), 3), (Point::new(0, 1), 1), (Point::new(1, 2), 3)]
    );
    assert_eq!(map.action_field(Point::new(9, 9), 5).solve(), vec![]);
}

#[test]
fn the_next_cell_to_settle_is_the_cheapest_then_the_first() {
    let zeros = vec![0u64; 4];
    assert_eq!(pick(&vec![None, None, None, None], &vec![false; 4], &zeros), None);
    assert_eq!(pick(&vec![Some(3), Some(1), None, Some(2)], &vec![false; 4], &zeros), Some(1));
    assert_eq!(pick(&vec![Some(3), Some(1), None, Some(2)], &vec![false, true, false, false], &zeros), Some(3));
    assert_eq!(pick(&vec![Some(3), Some(1), None, Some(2)], &vec![true, true, false, true], &zeros), None);
    assert_eq!(pick(&vec![Some(5), Some(2), Some(2), Some(2)], &vec![false; 4], &zeros), Some(1));
    assert_eq!(pick(&vec![Some(5), Some(2), Some(2), Some(2)], &vec![false; 4], &vec![0, 4, 1, 1]), Some(2));
    assert_eq!(pick(&vec![Some(0), Some(2), Some(2), Some(2)], &vec![false; 4], &vec![9, 4, 1, 1]), Some(2));
}

fn line_graph() -> CostGraph {
    CostGraph {
        links: vec![vec![1, 3], vec![0, 2], vec![1], vec![2]],
        passable: vec![true, true, true, true],
        cost: vec![1, 5, 1, 7],
    }
}

#[test]
fn shortest_route_in_a_plain_graph() {
    let graph = line_graph();
    let zeros = vec![0, 0, 0, 0];
    assert_eq!(shortest_route(&graph, &zeros, 0, 2), Some((vec![0, 1, 2], 6)));
    assert_eq!(shortest_route(&graph, &zeros, 0, 0), Some((vec![0], 0)));
    assert_eq!(shortest_route(&graph, &zeros, 2, 3), Some((vec![2, 1, 0, 3], 13)));
    let one_way = CostGraph { links: vec![vec![1], vec![], vec![0], vec![]], ..line_graph() };
    assert_eq!(shortest_route(&one_way, &zeros, 1, 0), None);
    assert_eq!(shortest_route(&one_way, &zeros, 2, 1), Some((vec![2, 0, 1], 6)));
    assert_eq!(shortest_route(&one_way, &zeros, 0, 3), None);
    assert_eq!(shortest_route(&graph, &zeros, 2, 0), Some((vec![2, 1, 0], 6)));
    assert_eq!(shortest_route(&graph, &vec![6, 1, 0, 1], 0, 2), Some((vec![0, 1, 2], 6)));
    assert_eq!(shortest_route_within(&graph, &zeros, 0, 2, Some(5)), None);
    assert_eq!(shortest_route_within(&graph, &zeros, 0, 2, Some(6)), Some((vec![0, 1, 2], 6)));
    let cheaper = CostGraph { cost: vec![1, 9, 1, 7], ..line_graph() };
    assert_eq!(shortest_route(&cheaper, &zeros, 0, 2), Some((vec![0, 3, 2], 8)));
    let closed = CostGraph { passable: vec![true, false, true, true], ..line_graph() };
    assert_eq!(shortest_route(&closed, &zeros, 0, 2), Some((vec![0, 3, 2], 8)));
}

#[test]
fn reachable_cells_come_sorted_by_cost_then_number() {
    let graph = line_graph();
    assert_eq!(reachable_within(&graph, 0, 0), vec![(0, 0)]);
    assert_eq!(reachable_within(&graph, 0, 6), vec![(0, 0), (5, 1), (6, 2)]);
    assert_eq!(reachable_within(&graph, 0, 100), vec![(0, 0), (5, 1), (6, 2), (7, 3)]);
    let free = CostGraph { cost: vec![0, 0, 0, 0], ..line_graph() };
    assert_eq!(reachable_within(&free, 3, 0), vec![(0, 0), (0, 1), (0, 2), (0, 3)]);
    let star = CostGraph {
        links: vec![vec![3, 2, 1], vec![], vec![], vec![]],
        passable: vec![true, true, true, true],
        cost: vec![0, 4, 2, 2],
    };
    assert_eq!(reachable_within(&star, 0, 9), vec![(0, 0), (2, 2), (2, 3), (4, 1)]);
}

#[test]
fn a_search_is_possible_where_its_frame_fits_the_machine() {
    let plain = TaxicabMap::<u8>::square(3, &0);
    assert!(plain.path_finder((isize::MIN, 0), (isize::MAX, 0)).can_search());
    let wrapping = TaxicabMap::<u8>::square(3, &0).with_cycle(true, false);
    assert!(wrapping.path_finder((0, 0), (40, 2)).can_search());
    assert!(wrapping.path_finder((-7, 5), (2, -9)).can_search());
    assert!(!wrapping.path_finder((isize::MIN + 2, 0), (0, 0)).can_search());
    assert!(!wrapping.path_finder((0, 0), (isize::MAX - 3, 0)).can_search());
    assert!(wrapping.path_finder((isize::MAX - 40, 0), (isize::MAX - 30, 0)).can_search());
    assert!(!wrapping.path_finder((isize::MAX - 40, 0), (isize::MAX - 27, 0)).can_search());
    assert!(wrapping.path_finder((isize::MAX - 40, 0), (isize::MAX - 29, 0)).can_search());
}

#[test]
fn with_unit_costs_the_field_is_the_disk_and_the_cost_the_distance() {
    let map = TaxicabMap::<u8>::rectangle_at((-4, -4), 9, 9, &0);
    for budget in 0..=4u128 {
        let field = map.action_field((0, 0), budget).solve();
        let mut disk: Vec<(u128, (isize, isize))> = Vec::new();
        for x in -4..=4isize {
            for y in -4..=4isize {
                let apart = (x.unsigned_abs() + y.unsigned_abs()) as u128;
                if apart <= budget {
                    disk.push((apart, (x, y)));
                }
            }
        }
        disk.sort();
        assert_eq!(field, disk);
    }
    let hexes = HexagonMap::<u8>::circle(9);
    for budget in 0..=4u128 {
        let centre = Point::new(4, 4);
        let field = hexes.action_field(centre, budget).solve();
        for &(cost, cell) in field.iter() {
            assert_eq!(cost, cell.hex_distance(&centre) as u128);
        }
        let b = budget as usize;
        assert_eq!(field.len(), 1 + 3 * b * (b + 1));
    }
}
