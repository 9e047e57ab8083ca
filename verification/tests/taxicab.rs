use grid_maps::taxicab::{
    absolute_to_relative, manhattan_distance, relative_to_absolute, DiamondPoints, Direction,
    InvalidAdjacency, Joint, TaxicabMap,
};

#[test]
fn directions_are_four_and_reverse_in_pairs() {
    let all = Direction::all();
    assert_eq!(all, [Direction::X(true), Direction::X(false), Direction::Y(true), Direction::Y(false)]);
    for d in all {
        assert_eq!(-(-d), d);
        assert_eq!(!d, -d);
        assert_ne!(-d, d);
    }
    assert_eq!(-Direction::X(true), Direction::X(false));
    assert_eq!(!Direction::Y(false), Direction::Y(true));
}

#[test]
fn a_step_and_its_reverse_lead_back() {
    for (x, y) in [(0isize, 0isize), (-7, 3), (12, -5)] {
        for d in Direction::all() {
            let there = Joint::new(x, y, d).target();
            let back = Joint::new(there.0, there.1, -d).target();
            assert_eq!(back, (x, y));
        }
    }
}

#[test]
fn joint_targets_follow_the_direction() {
    assert_eq!(Joint::new(2, 3, Direction::X(true)).target(), (3, 3));
    assert_eq!(Joint::new(2, 3, Direction::X(false)).target(), (1, 3));
    assert_eq!(Joint::new(2, 3, Direction::Y(true)).target(), (2, 4));
    assert_eq!(Joint::new(2, 3, Direction::Y(false)).target(), (2, 2));
    assert_eq!(Joint::new(2, 3, Direction::Y(false)).source(), (2, 3));
    assert_eq!(Direction::Y(true).as_joint(4, 5), Joint::new(4, 5, Direction::Y(true)));
}

#[test]
fn joint_direction_can_be_replaced() {
    let mut joint = Joint::new(1, 1, Direction::X(true));
    assert_eq!(joint.get_direction(), Direction::X(true));
    joint.set_direction(Direction::Y(false));
    assert_eq!(joint.get_direction(), Direction::Y(false));
    assert_eq!(joint.source(), (1, 1));
    assert_eq!(joint.target(), (1, 0));
    let flipped = -joint;
    assert_eq!(flipped.source(), (1, 1));
    assert_eq!(flipped.get_direction(), Direction::Y(true));
    assert_eq!(!flipped, joint);
}

#[test]
fn joint_from_adjacent_points() {
    assert_eq!(Joint::from_point((0, 0), (1, 0)), Ok(Joint::new(0, 0, Direction::X(true))));
    assert_eq!(Joint::from_point((0, 0), (-1, 0)), Ok(Joint::new(0, 0, Direction::X(false))));
    assert_eq!(Joint::from_point((0, 0), (0, 1)), Ok(Joint::new(0, 0, Direction::Y(true))));
    assert_eq!(Joint::from_point((0, 0), (0, -1)), Ok(Joint::new(0, 0, Direction::Y(false))));
    let joint = Joint::from_point((5, -2), (5, -3)).unwrap();
    assert_eq!(joint.target(), (5, -3));
}

#[test]
fn joint_from_distant_points_is_refused() {
    assert_eq!(
        Joint::from_point((0, 0), (1, 1)),
        Err(InvalidAdjacency { from: (0, 0), to: (1, 1) })
    );
    assert_eq!(
        Joint::from_point((0, 0), (0, 0)),
        Err(InvalidAdjacency { from: (0, 0), to: (0, 0) })
    );
    assert_eq!(
        Joint::from_point((0, 0), (2, 0)),
        Err(InvalidAdjacency { from: (0, 0), to: (2, 0) })
    );
    assert!(Joint::from_point((isize::MAX, 0), (isize::MIN, 0)).is_err());
    assert!(Joint::from_point((0, isize::MIN), (0, isize::MAX)).is_err());
}

#[test]
fn offsets_of_plain_and_wrapping_axes() {
    assert_eq!(absolute_to_relative(0, 0, 0, 0, 3, 4, false, false), Some((0, 0)));
    assert_eq!(absolute_to_relative(2, 3, 0, 0, 3, 4, false, false), Some((2, 3)));
    assert_eq!(absolute_to_relative(3, 0, 0, 0, 3, 4, false, false), None);
    assert_eq!(absolute_to_relative(0, 4, 0, 0, 3, 4, false, false), None);
    assert_eq!(absolute_to_relative(-1, 0, 0, 0, 3, 4, false, false), None);
    assert_eq!(absolute_to_relative(-1, 0, 0, 0, 3, 4, true, false), Some((2, 0)));
    assert_eq!(absolute_to_relative(-4, 9, 0, 0, 3, 4, true, true), Some((2, 1)));
    assert_eq!(absolute_to_relative(7, -1, 0, 0, 3, 4, true, true), Some((1, 3)));
    assert_eq!(absolute_to_relative(-5, -5, -5, -5, 10, 10, false, false), Some((0, 0)));
    assert_eq!(absolute_to_relative(4, 4, -5, -5, 10, 10, false, false), Some((9, 9)));
    assert_eq!(absolute_to_relative(5, 0, -5, -5, 10, 10, false, false), None);
    assert_eq!(absolute_to_relative(-9, 9, -5, -5, 10, 10, true, true), Some((6, 4)));
    assert_eq!(absolute_to_relative(0, 0, 0, 0, 0, 4, true, true), None);
    assert_eq!(absolute_to_relative(0, 0, 0, 0, 4, 0, false, false), None);
    assert_eq!(
        absolute_to_relative(isize::MIN, isize::MAX, isize::MAX, isize::MIN, 7, 5, true, true),
        Some((6, 0))
    );
    assert_eq!(relative_to_absolute(3, 4, -5, 2), (-2, 6));
}

#[test]
fn rectangle_holds_the_fill_everywhere() {
    let map = TaxicabMap::<u8>::rectangle(3, 4, &7);
    assert_eq!(map.get_size(), (3, 4));
    assert_eq!(map.get_cycle(), (false, false));
    assert_eq!(map.get_origin(), (0, 0));
    assert_eq!(map.count_points(), 12);
    for x in 0..3 {
        for y in 0..4 {
            assert!(map.has_point(x, y));
            assert_eq!(map.get_point(x, y), Some(&7));
        }
    }
    assert!(!map.has_point(3, 0));
    assert_eq!(map.get_point(0, 4), None);
    assert_eq!(map.get_point(-1, -1), None);
    let empty = TaxicabMap::<u8>::rectangle(0, 5, &1);
    assert_eq!(empty.count_points(), 0);
    assert!(!empty.has_point(0, 0));
    assert_eq!(empty.points_all().collect_vec().len(), 0);
}

#[test]
fn set_point_changes_one_cell_only() {
    let mut map = TaxicabMap::<u32>::rectangle(3, 3, &0);
    assert_eq!(map.set_point(1, 2, 9), Some(0));
    assert_eq!(map.set_point(1, 2, 9), Some(9));
    assert_eq!(map.set_point(3, 3, 5), None);
    for x in 0..3 {
        for y in 0..3 {
            let expected = if (x, y) == (1, 2) { 9 } else { 0 };
            assert_eq!(map.get_point(x, y), Some(&expected));
        }
    }
    *map.mut_point(0, 0).unwrap() = 4;
    assert_eq!(map.get_point(0, 0), Some(&4));
    assert!(map.mut_point(0, 3).is_none());
    *map.index_mut((2, 2)) = 6;
    assert_eq!(*map.index((2, 2)), 6);
    assert_eq!(*map.index((1, 2)), 9);
}

#[test]
fn wrapping_addresses_a_cell_from_everywhere() {
    let mut map = TaxicabMap::<i32>::rectangle(3, 2, &0).with_cycle(true, false);
    assert_eq!(map.set_point(4, 1, 8), Some(0));
    assert_eq!(map.get_point(1, 1), Some(&8));
    assert_eq!(map.get_point(-2, 1), Some(&8));
    assert_eq!(map.get_point(1, 3), None);
    map.set_cycle(true, true);
    assert_eq!(map.get_cycle(), (true, true));
    assert_eq!(map.get_point(1, 3), Some(&8));
    assert_eq!(map.get_point(-5, -1), Some(&8));
}

#[test]
fn shifting_the_origin_moves_every_coordinate() {
    let mut map = TaxicabMap::<i32>::rectangle(3, 3, &0);
    map.set_point(0, 0, 1);
    map.set_point(2, 1, 2);
    map.shift_origin(-5, 10);
    assert_eq!(map.get_origin(), (-5, 10));
    assert_eq!(map.get_point(-5, 10), Some(&1));
    assert_eq!(map.get_point(-3, 11), Some(&2));
    assert_eq!(map.get_point(0, 0), None);
    assert_eq!(map.points_all().collect_vec()[0], (-5, 10, &1));
}

fn numbered(width: usize, height: usize) -> TaxicabMap<usize> {
    let mut map = TaxicabMap::<usize>::rectangle(width, height, &0);
    for x in 0..width {
        for y in 0..height {
            map.set_point(x as isize, y as isize, 100 * x + y + 1);
        }
    }
    map
}

#[test]
fn extend_keeps_every_value_under_its_coordinate() {
    for direction in Direction::all() {
        let mut map = numbered(3, 4);
        map.extend(direction, 2, &0);
        let (w, h) = map.get_size();
        match direction {
            Direction::X(_) => assert_eq!((w, h), (5, 4)),
            Direction::Y(_) => assert_eq!((w, h), (3, 6)),
        }
        assert_eq!(map.count_points(), w * h);
        for x in 0..3usize {
            for y in 0..4usize {
                assert_eq!(map.get_point(x as isize, y as isize), Some(&(100 * x + y + 1)));
            }
        }
        let fresh: Vec<(isize, isize)> = match direction {
            Direction::X(true) => vec![(-2, 0), (-1, 3)],
            Direction::X(false) => vec![(3, 0), (4, 3)],
            Direction::Y(true) => vec![(0, -2), (2, -1)],
            Direction::Y(false) => vec![(0, 4), (2, 5)],
        };
        for (x, y) in fresh {
            assert_eq!(map.get_point(x, y), Some(&0));
        }
        let filled = map.points_all().collect_vec().iter().filter(|e| *e.2 == 0).count();
        assert_eq!(filled, w * h - 12);
    }
}

#[test]
fn extend_moves_the_origin_towards_the_new_cells() {
    let mut map = numbered(2, 2);
    map.shift_origin(10, 20);
    map.extend(Direction::X(true), 3, &0);
    assert_eq!(map.get_origin(), (7, 20));
    map.extend(Direction::Y(true), 1, &0);
    assert_eq!(map.get_origin(), (7, 19));
    map.extend(Direction::X(false), 4, &0);
    map.extend(Direction::Y(false), 4, &0);
    assert_eq!(map.get_origin(), (7, 19));
    assert_eq!(map.get_size(), (9, 7));
    assert_eq!(map.get_point(10, 20), Some(&1));
    assert_eq!(map.get_point(11, 21), Some(&102));
}

#[test]
fn all_points_come_in_storage_order() {
    let mut map = numbered(2, 3);
    map.shift_origin(-1, 5);
    let all = map.points_all().collect_vec();
    let expected: Vec<(isize, isize, usize)> =
        vec![(-1, 5, 1), (-1, 6, 2), (-1, 7, 3), (0, 5, 101), (0, 6, 102), (0, 7, 103)];
    assert_eq!(all.len(), expected.len());
    for (got, want) in all.iter().zip(expected.iter()) {
        assert_eq!((got.0, got.1, *got.2), *want);
    }
    let mut walker = map.points_all();
    assert_eq!(walker.next(), Some((-1, 5, &1)));
    assert_eq!(walker.next(), Some((-1, 6, &2)));
    assert_eq!(walker.collect_vec().len(), 4);
}

#[test]
fn rows_and_columns_come_in_both_orders() {
    let map = numbered(2, 3);
    let mut rows = map.rows(true);
    assert_eq!(rows.get_direction(), Direction::Y(true));
    assert_eq!(rows.get_line(), 0);
    assert_eq!(rows.next(), Some(vec![(0, 0, &1), (1, 0, &101)]));
    assert_eq!(rows.next(), Some(vec![(0, 1, &2), (1, 1, &102)]));
    assert_eq!(rows.get_line(), 2);
    assert_eq!(rows.next(), Some(vec![(0, 2, &3), (1, 2, &103)]));
    assert_eq!(rows.next(), None);
    assert_eq!(rows.get_line(), 3);
    let mut rows = map.rows(false);
    assert_eq!(rows.next(), Some(vec![(0, 2, &3), (1, 2, &103)]));
    let mut columns = map.columns(true);
    assert_eq!(columns.get_direction(), Direction::X(true));
    assert_eq!(columns.next(), Some(vec![(0, 0, &1), (0, 1, &2), (0, 2, &3)]));
    assert_eq!(columns.next(), Some(vec![(1, 0, &101), (1, 1, &102), (1, 2, &103)]));
    assert_eq!(columns.next(), None);
    let mut columns = map.columns(false);
    assert_eq!(columns.next(), Some(vec![(1, 0, &101), (1, 1, &102), (1, 2, &103)]));
}

#[test]
fn rings_have_four_cells_per_unit_of_radius() {
    assert_eq!(DiamondPoints::new(3, -4, 0).collect_vec(), vec![(3, -4)]);
    for n in 1..8isize {
        let ring = DiamondPoints::new(3, -4, n).collect_vec();
        assert_eq!(ring.len(), 4 * n as usize);
        assert_eq!(ring[0], (3 + n, -4));
        for (i, p) in ring.iter().enumerate() {
            assert_eq!((p.0 - 3).abs() + (p.1 + 4).abs(), n);
            assert!(!ring[..i].contains(p));
        }
    }
    assert_eq!(DiamondPoints::new(0, 0, -1).collect_vec(), vec![]);
    let mut ring = DiamondPoints::new(0, 0, 1);
    assert_eq!(ring.next(), Some((1, 0)));
    assert_eq!(ring.next(), Some((0, 1)));
    assert_eq!(ring.collect_vec(), vec![(-1, 0), (0, -1)]);
}

#[test]
fn neighbours_stay_on_the_map() {
    let map = TaxicabMap::<u8>::rectangle(3, 3, &0);
    assert_eq!(map.points_nearby(1, 1).collect_vec(), vec![(2, 1), (1, 2), (0, 1), (1, 0)]);
    assert_eq!(map.points_nearby(0, 0).collect_vec(), vec![(1, 0), (0, 1)]);
    assert_eq!(map.points_nearby(2, 2).collect_vec(), vec![(1, 2), (2, 1)]);
    assert_eq!(map.points_nearby(5, 5).collect_vec(), vec![]);
    assert_eq!(map.points_around(1, 1, 0).collect_vec(), vec![(1, 1)]);
    assert_eq!(map.points_around(1, 1, 2).collect_vec(), vec![(2, 2), (0, 2), (0, 0), (2, 0)]);
    let joints = map.joints_nearby(0, 0);
    assert_eq!(joints, vec![Joint::new(0, 0, Direction::X(true)), Joint::new(0, 0, Direction::Y(true))]);
    let mut around = map.points_nearby(2, 0);
    assert_eq!(around.next(), Some((2, 1)));
    assert_eq!(around.next(), Some((1, 0)));
    assert_eq!(around.next(), None);
}

#[test]
fn rings_on_a_wrapping_map_report_each_cell_once() {
    let map = TaxicabMap::<u8>::square(4, &1).with_cycle(true, false);
    assert_eq!(map.points_nearby(0, 0).collect_vec(), vec![(1, 0), (0, 1), (-1, 0)]);
    let ring = map.points_around(0, 0, 3).collect_vec();
    assert_eq!(ring, vec![(3, 0), (2, 1), (1, 2), (0, 3), (-1, 2), (-3, 0)]);
    let small = TaxicabMap::<u8>::square(2, &1).with_cycle(true, true);
    assert_eq!(small.points_nearby(0, 0).collect_vec(), vec![(1, 0), (0, 1)]);
    assert_eq!(small.points_around(0, 0, 2).collect_vec(), vec![(2, 0), (1, 1)]);
}

#[test]
fn disks_report_ring_after_ring() {
    let mut map = TaxicabMap::<u8>::square(7, &0);
    map.shift_origin(-3, -3);
    assert_eq!(map.points_within(0, 0, 0).collect_vec(), vec![(0, 0)]);
    let disk = map.points_within(0, 0, 2).collect_vec();
    assert_eq!(
        disk,
        vec![
            (0, 0),
            (1, 0), (0, 1), (-1, 0), (0, -1),
            (2, 0), (1, 1), (0, 2), (-1, 1), (-2, 0), (-1, -1), (0, -2), (1, -1)
        ]
    );
    let corner = map.points_within(3, 3, 1).collect_vec();
    assert_eq!(corner, vec![(3, 3), (2, 3), (3, 2)]);
    let torus = TaxicabMap::<u8>::square(3, &0).with_cycle(true, true);
    let all = torus.points_within(0, 0, 4).collect_vec();
    assert_eq!(all.len(), 9);
    assert_eq!(all, vec![(0, 0), (1, 0), (0, 1), (-1, 0), (0, -1), (1, 1), (-1, 1), (-1, -1), (1, -1)]);
}

#[test]
fn cells_can_be_changed_in_one_walk() {
    let mut map = TaxicabMap::<isize>::rectangle(2, 3, &0);
    map.shift_origin(5, -1);
    {
        let mut walker = map.points_mut();
        let mut seen = vec![];
        while let Some((x, y, value)) = walker.next() {
            seen.push((x, y));
            *value = 10 * x + y;
        }
        assert_eq!(seen, vec![(5, -1), (5, 0), (5, 1), (6, -1), (6, 0), (6, 1)]);
        assert!(walker.next().is_none());
    }
    for (x, y, value) in map.points_all().collect_vec() {
        assert_eq!(*value, 10 * x + y);
    }
    let mut empty = TaxicabMap::<u8>::rectangle(3, 0, &0);
    assert!(empty.points_mut().next().is_none());
}

#[test]
fn taxicab_distances_between_cells() {
    assert_eq!(manhattan_distance((0, 0), (0, 0)), 0);
    assert_eq!(manhattan_distance((0, 0), (2, 3)), 5);
    assert_eq!(manhattan_distance((-4, 7), (1, 1)), 11);
    assert_eq!(manhattan_distance((1, 1), (-4, 7)), 11);
    assert_eq!(
        manhattan_distance((isize::MIN, isize::MIN), (isize::MAX, isize::MAX)),
        2 * (usize::MAX as u128)
    );
}

#[test]
fn a_rectangle_can_be_placed_at_an_origin() {
    let map = TaxicabMap::<u8>::rectangle_at((-3, 7), 2, 3, &5);
    assert_eq!(map.get_origin(), (-3, 7));
    assert_eq!(map.get_size(), (2, 3));
    assert_eq!(map.get_cycle(), (false, false));
    assert_eq!(map.get_point(-3, 7), Some(&5));
    assert_eq!(map.get_point(-2, 9), Some(&5));
    assert_eq!(map.get_point(0, 0), None);
    assert_eq!(map.get_point(-1, 7), None);
}
