use grid_maps::hexagon::{Direction, HPoint, HexagonMap, InvalidAdjacency, Joint, Point, SPoint, WPoint};

fn hex_distance(a: Point, b: Point) -> isize {
    let dx = a.x - b.x;
    let dy = a.y - b.y;
    (dx.abs() + dy.abs() + (dx + dy).abs()) / 2
}

#[test]
fn hex_directions_are_six_and_reverse_in_pairs() {
    let all = Direction::all();
    assert_eq!(
        all,
        [
            Direction::X(true),
            Direction::X(false),
            Direction::Y(true),
            Direction::Y(false),
            Direction::Q(true),
            Direction::Q(false)
        ]
    );
    for d in all {
        assert_eq!(-(-d), d);
        assert_eq!(!d, -d);
        assert_ne!(-d, d);
    }
}

#[test]
fn hex_steps_follow_the_direction() {
    let p = Point::new(4, -2);
    assert_eq!(p.go(Direction::X(true)), Point::new(5, -3));
    assert_eq!(p.go(Direction::X(false)), Point::new(3, -1));
    assert_eq!(p.go(Direction::Y(true)), Point::new(5, -2));
    assert_eq!(p.go(Direction::Y(false)), Point::new(3, -2));
    assert_eq!(p.go(Direction::Q(true)), Point::new(4, -3));
    assert_eq!(p.go(Direction::Q(false)), Point::new(4, -1));
}

#[test]
fn a_hex_step_and_its_reverse_lead_back() {
    for p in [Point::new(0, 0), Point::new(-3, 8), Point::new(100, -100)] {
        for d in Direction::all() {
            assert_eq!(p.go(d).go(-d), p);
        }
    }
}

#[test]
fn the_six_neighbours_are_all_cells_at_distance_one() {
    let p = Point::new(2, -5);
    let near = p.nearby();
    assert_eq!(near.len(), 6);
    for (i, q) in near.iter().enumerate() {
        assert_eq!(*q, p.go(Direction::all()[i]));
        assert_eq!(hex_distance(p, *q), 1);
        assert_eq!(p.hex_distance(q), 1);
        assert!(!near[..i].contains(q));
    }
}

#[test]
fn distances_between_hex_cells() {
    let a = Point::new(0, 0);
    assert_eq!(a.hex_distance(&Point::new(0, 0)), 0);
    assert_eq!(a.hex_distance(&Point::new(3, 0)), 3);
    assert_eq!(a.hex_distance(&Point::new(3, -3)), 3);
    assert_eq!(a.hex_distance(&Point::new(3, 2)), 5);
    assert_eq!(a.hex_distance(&Point::new(-2, 5)), 5);
    assert_eq!(a.manhattan_distance(&Point::new(3, -3)), 6);
    assert_eq!(a.manhattan_distance(&Point::new(3, 2)), 5);
    assert_eq!(Point::new(-4, 7).manhattan_distance(&Point::new(1, 1)), 11);
}

#[test]
fn other_coordinate_forms_convert_and_step() {
    let p = Point::new(3, -1);
    let h = HPoint::from(p);
    assert_eq!((h.x, h.y), (3, -1));
    assert_eq!(Point::from(h), p);
    assert_eq!(h.go(Direction::Q(false)), HPoint::new(3, 0));
    let w = WPoint::from(p);
    assert_eq!(Point::from(w), p);
    assert_eq!(w.go(Direction::Y(true)), WPoint::new(4, -1));
    let s = SPoint::from_axial(p);
    assert_eq!((s.q, s.s, s.r), (3, -2, -1));
    assert_eq!(Point::from(s), p);
    let moved = s.go(Direction::X(true));
    assert_eq!(moved, SPoint::new(4, -2, -2));
    assert_eq!(moved.q + moved.s + moved.r, 0);
}

#[test]
fn hex_joints_know_their_ends() {
    let p = Point::new(1, 1);
    let joint = Joint::new(&p, Direction::X(false));
    assert_eq!(joint.source(), p);
    assert_eq!(joint.target(), Point::new(0, 2));
    for d in Direction::all() {
        assert_eq!(Joint::from_points(p, p.go(d)), Ok(Joint::new(&p, d)));
    }
    assert_eq!(
        Joint::from_points(p, Point::new(2, 2)),
        Err(InvalidAdjacency { from: p, to: Point::new(2, 2) })
    );
    assert_eq!(Joint::from_points(p, p), Err(InvalidAdjacency { from: p, to: p }));
    assert!(Joint::from_points(Point::new(isize::MAX, 0), Point::new(isize::MIN, 0)).is_err());
}

#[test]
fn a_sparse_map_holds_what_was_added() {
    let mut map = HexagonMap::<u32>::new();
    assert_eq!(map.count_points(), 0);
    assert_eq!(map.add_point(Point::new(2, 3), 7), None);
    assert_eq!(map.add_point(Point::new(-1, 0), 8), None);
    assert_eq!(map.add_point(Point::new(2, 3), 9), Some(7));
    assert_eq!(map.count_points(), 2);
    assert!(map.has_point(Point::new(2, 3)));
    assert!(!map.has_point(Point::new(3, 2)));
    assert_eq!(map.get_point(Point::new(2, 3)), Some(&9));
    assert_eq!(map.get_point(Point::new(0, 0)), None);
    *map.mut_point(Point::new(-1, 0)).unwrap() += 10;
    assert_eq!(map.get_point(Point::new(-1, 0)), Some(&18));
    assert_eq!(map.get_point(Point::new(2, 3)), Some(&9));
    assert!(map.mut_point(Point::new(5, 5)).is_none());
    assert_eq!(map.remove_point(Point::new(5, 5)), None);
    assert_eq!(map.remove_point(Point::new(2, 3)), Some(9));
    assert_eq!(map.count_points(), 1);
    assert_eq!(map.points(), vec![Point::new(-1, 0)]);
}

#[test]
fn points_come_in_coordinate_order() {
    let mut map = HexagonMap::<u8>::new();
    for (x, y) in [(2, 2), (-1, 5), (2, -7), (0, 0), (-1, -3)] {
        map.add_point(Point::new(x, y), 0);
    }
    assert_eq!(
        map.points(),
        vec![Point::new(-1, -3), Point::new(-1, 5), Point::new(0, 0), Point::new(2, -7), Point::new(2, 2)]
    );
}

#[test]
fn rhombus_and_circle_fill_a_square_of_axial_coordinates() {
    let map = HexagonMap::<u8>::rhombus(3, 4);
    assert_eq!(map.count_points(), 12);
    for x in 0..3 {
        for y in 0..4 {
            assert_eq!(map.get_point(Point::new(x, y)), Some(&0));
        }
    }
    assert!(!map.has_point(Point::new(3, 0)));
    assert!(!map.has_point(Point::new(0, 4)));
    assert!(!map.has_point(Point::new(-1, 0)));
    let circle = HexagonMap::<bool>::circle(3);
    assert_eq!(circle.count_points(), 9);
    assert_eq!(circle.points(), HexagonMap::<bool>::rhombus(3, 3).points());
    assert_eq!(HexagonMap::<u8>::rhombus(0, 4).count_points(), 0);
}

#[test]
fn staggered_rectangles_shift_every_second_line() {
    let map = HexagonMap::<u8>::width_first(3, 4, true);
    assert_eq!(map.count_points(), 12);
    let expected: Vec<Point> = [
        (0, 0), (1, 0), (2, 0), (3, 0),
        (-1, 1), (0, 1), (1, 1), (2, 1),
        (-1, 2), (0, 2), (1, 2), (2, 2),
    ]
    .iter()
    .map(|&(x, y)| Point::new(x, y))
    .collect();
    for p in &expected {
        assert!(map.has_point(*p), "{p:?}");
    }
    let even = HexagonMap::<u8>::width_first(3, 4, false);
    assert_eq!(even.count_points(), 12);
    for (x, y) in [(0, 0), (3, 0), (0, 1), (3, 1), (-1, 2), (2, 2)] {
        assert!(even.has_point(Point::new(x, y)));
    }
    assert!(!even.has_point(Point::new(-1, 1)));
    let tall = HexagonMap::<u8>::height_first(3, 4, true);
    assert_eq!(tall.count_points(), 12);
    for (x, y) in [(0, 0), (0, 2), (1, -1), (1, 1), (2, -1), (3, -2), (3, 0)] {
        assert!(tall.has_point(Point::new(x, y)));
    }
    assert!(!tall.has_point(Point::new(3, 1)));
}

#[test]
fn cells_of_a_staggered_rectangle_have_few_neighbours() {
    let map = HexagonMap::<u8>::width_first(3, 4, true);
    assert_eq!(map.count_points(), 12);
    for p in map.points() {
        let near = map.nearby_points(&p);
        assert!(near.len() <= 6);
        for q in &near {
            assert!(map.has_point(*q));
            assert_eq!(hex_distance(p, *q), 1);
        }
        if p.y == 0 || p.y == 2 {
            assert!(near.len() <= 4, "{p:?}");
        }
    }
    assert_eq!(map.nearby_points(&Point::new(0, 1)).len(), 6);
    assert_eq!(map.nearby_points(&Point::new(0, 0)).len(), 3);
    assert_eq!(map.nearby_points(&Point::new(3, 0)).len(), 2);
}

#[test]
fn neighbours_come_in_the_order_of_the_directions() {
    let map = HexagonMap::<u8>::rhombus(3, 3);
    assert_eq!(
        map.nearby_points(&Point::new(1, 1)),
        vec![
            Point::new(2, 0),
            Point::new(0, 2),
            Point::new(2, 1),
            Point::new(0, 1),
            Point::new(1, 0),
            Point::new(1, 2)
        ]
    );
    assert_eq!(map.nearby_points(&Point::new(0, 0)), vec![Point::new(1, 0), Point::new(0, 1)]);
    assert_eq!(map.nearby_points(&Point::new(7, 7)), vec![]);
}

#[test]
fn hex_rings_have_six_cells_per_unit_of_radius() {
    let map = HexagonMap::<u8>::rhombus(21, 21);
    let centre = Point::new(10, 10);
    assert_eq!(map.around_points(&centre, 0), vec![centre]);
    for n in 1..=10usize {
        let ring = map.around_points(&centre, n);
        assert_eq!(ring.len(), 6 * n);
        assert_eq!(ring[0], Point::new(10 + n as isize, 10));
        for (i, p) in ring.iter().enumerate() {
            assert_eq!(hex_distance(centre, *p), n as isize);
            assert!(!ring[..i].contains(p));
        }
    }
    assert_eq!(
        map.around_points(&centre, 1),
        vec![
            Point::new(11, 10),
            Point::new(10, 11),
            Point::new(9, 11),
            Point::new(9, 10),
            Point::new(10, 9),
            Point::new(11, 9)
        ]
    );
    let corner = map.around_points(&Point::new(0, 0), 2);
    assert_eq!(corner, vec![Point::new(2, 0), Point::new(1, 1), Point::new(0, 2)]);
}

#[test]
fn hex_disks_report_ring_after_ring() {
    let map = HexagonMap::<u8>::rhombus(9, 9);
    let centre = Point::new(4, 4);
    assert_eq!(map.within_points(&centre, 0), vec![centre]);
    for n in 0..=4usize {
        let disk = map.within_points(&centre, n);
        assert_eq!(disk.len(), 1 + 3 * n * (n + 1));
        let mut rings = vec![];
        for r in 0..=n {
            rings.extend(map.around_points(&centre, r));
        }
        assert_eq!(disk, rings);
        for (i, p) in disk.iter().enumerate() {
            assert!(hex_distance(centre, *p) <= n as isize);
            assert!(!disk[..i].contains(p));
        }
    }
    assert_eq!(map.within_points(&Point::new(0, 0), 1), vec![Point::new(0, 0), Point::new(1, 0), Point::new(0, 1)]);
}
