use dirfield::cardinal::Cardinal;
use dirfield::fanout::{build_all_direction_fields, free_cells};
use dirfield::field::get_distances;
use dirfield::grid::{build_grid, generate_tile, grid_from_cells, Grid, GridError};
use rand::rngs::StdRng;
use rand::SeedableRng;

fn open_grid(n: i32) -> Grid {
    build_grid(n, &Vec::new()).unwrap()
}

fn manhattan(a: (i32, i32), b: (i32, i32)) -> usize {
    ((a.0 - b.0).abs() + (a.1 - b.1).abs()) as usize
}

#[test]
fn open_five_by_five_corner_to_corner() {
    let g = open_grid(5);
    let f = get_distances((0, 0), &g).unwrap();
    assert_eq!(f.distance((4, 4)), Some(8));
}

#[test]
fn detour_around_obstructed_center() {
    let g = build_grid(3, &vec![(1, 1)]).unwrap();
    let f = get_distances((0, 0), &g).unwrap();
    assert_eq!(f.distance((2, 2)), Some(4));
    assert_eq!(f.distance((1, 1)), None);
}

#[test]
fn single_cell_grid_has_no_entries() {
    let g = open_grid(1);
    let f = get_distances((0, 0), &g).unwrap();
    assert_eq!(f.get((0, 0)), None);
    assert_eq!(f.source(), (0, 0));
    assert_eq!(f.size(), 1);
}

#[test]
fn open_grid_distances_are_manhattan() {
    let n = 6;
    let g = open_grid(n);
    for sy in 0..n {
        for sx in 0..n {
            let f = get_distances((sx, sy), &g).unwrap();
            for y in 0..n {
                for x in 0..n {
                    if (x, y) == (sx, sy) {
                        assert_eq!(f.distance((x, y)), None);
                    } else {
                        assert_eq!(f.distance((x, y)), Some(manhattan((sx, sy), (x, y))));
                    }
                }
            }
        }
    }
}

#[test]
fn predecessor_tie_break_prefers_up_then_right() {
    let g = open_grid(2);
    let f = get_distances((0, 0), &g).unwrap();
    assert_eq!(f.get((1, 1)), Some((2, Cardinal::U)));
    assert_eq!(f.get((1, 0)), Some((1, Cardinal::L)));
    assert_eq!(f.get((0, 1)), Some((1, Cardinal::U)));
    let f = get_distances((1, 1), &g).unwrap();
    assert_eq!(f.get((0, 0)), Some((2, Cardinal::R)));
}

#[test]
fn unreachable_region_is_absent() {
    // a wall down the middle column splits the grid in two
    let g = build_grid(3, &vec![(1, 0), (1, 1), (1, 2)]).unwrap();
    let f = get_distances((0, 0), &g).unwrap();
    assert_eq!(f.distance((0, 2)), Some(2));
    for y in 0..3 {
        assert_eq!(f.get((2, y)), None);
        assert_eq!(f.get((1, y)), None);
    }
}

#[test]
fn out_of_grid_queries_have_no_entry() {
    let g = open_grid(3);
    let f = get_distances((1, 1), &g).unwrap();
    assert_eq!(f.get((-1, 0)), None);
    assert_eq!(f.get((3, 0)), None);
    assert_eq!(f.get((0, 3)), None);
}

fn replay_reaches_source(g: &Grid, source: (i32, i32)) {
    let f = get_distances(source, g).unwrap();
    let n = g.size() as i32;
    for y in 0..n {
        for x in 0..n {
            if let Some((d, _)) = f.get((x, y)) {
                let mut c = (x, y);
                for _ in 0..d {
                    let (_, p) = f.get(c).unwrap();
                    c = p.delta_from(c);
                }
                assert_eq!(c, source);
            }
        }
    }
}

#[test]
fn following_predecessors_reaches_source() {
    let mut rng = StdRng::seed_from_u64(7);
    let g = generate_tile(12, &mut rng).unwrap();
    let cells = free_cells(&g);
    for s in cells.iter().take(10) {
        replay_reaches_source(&g, *s);
    }
    let g = build_grid(3, &vec![(1, 1)]).unwrap();
    replay_reaches_source(&g, (0, 0));
}

#[test]
fn distances_are_symmetric() {
    let g = build_grid(4, &vec![(1, 0), (1, 1), (2, 2), (3, 1)]).unwrap();
    let cells = free_cells(&g);
    for a in cells.iter() {
        let fa = get_distances(*a, &g).unwrap();
        for b in cells.iter() {
            let fb = get_distances(*b, &g).unwrap();
            assert_eq!(fa.distance(*b), fb.distance(*a));
        }
    }
}

#[test]
fn builds_are_deterministic() {
    let g = build_grid(5, &vec![(2, 1), (2, 2), (0, 3)]).unwrap();
    let f1 = get_distances((0, 0), &g).unwrap();
    let f2 = get_distances((0, 0), &g).unwrap();
    for y in 0..5 {
        for x in 0..5 {
            assert_eq!(f1.get((x, y)), f2.get((x, y)));
        }
    }
}

#[test]
fn distance_matches_breadth_first_reference() {
    let mut rng = StdRng::seed_from_u64(42);
    let g = generate_tile(9, &mut rng).unwrap();
    let n = 9i32;
    for s in free_cells(&g) {
        let f = get_distances(s, &g).unwrap();
        // plain breadth-first search for comparison
        let mut dist = vec![None; (n * n) as usize];
        dist[(s.1 * n + s.0) as usize] = Some(0usize);
        let mut queue = vec![s];
        let mut head = 0;
        while head < queue.len() {
            let c = queue[head];
            head += 1;
            let d = dist[(c.1 * n + c.0) as usize].unwrap();
            for dir in Cardinal::iter_all() {
                let nb = dir.delta_from(c);
                if g.is_free(nb) && dist[(nb.1 * n + nb.0) as usize].is_none() {
                    dist[(nb.1 * n + nb.0) as usize] = Some(d + 1);
                    queue.push(nb);
                }
            }
        }
        for y in 0..n {
            for x in 0..n {
                let expected = if (x, y) == s { None } else { dist[(y * n + x) as usize] };
                assert_eq!(f.distance((x, y)), expected);
            }
        }
    }
}

#[test]
fn obstructed_source_is_refused() {
    let g = build_grid(3, &vec![(1, 1)]).unwrap();
    assert!(matches!(get_distances((1, 1), &g), Err(GridError::ObstructedSource)));
}

#[test]
fn source_outside_grid_is_refused() {
    let g = open_grid(3);
    assert!(matches!(get_distances((3, 0), &g), Err(GridError::OutOfBounds)));
    assert!(matches!(get_distances((0, -1), &g), Err(GridError::OutOfBounds)));
}

#[test]
fn non_positive_size_is_refused() {
    assert!(matches!(build_grid(0, &Vec::new()), Err(GridError::InvalidDimension)));
    assert!(matches!(build_grid(-4, &Vec::new()), Err(GridError::InvalidDimension)));
    let mut rng = StdRng::seed_from_u64(1);
    assert!(matches!(generate_tile(0, &mut rng), Err(GridError::InvalidDimension)));
    assert!(matches!(grid_from_cells(2, vec![true; 3]), Err(GridError::InvalidDimension)));
}

#[test]
fn obstruction_outside_grid_is_refused() {
    assert!(matches!(build_grid(3, &vec![(0, 0), (5, 1)]), Err(GridError::OutOfBounds)));
}

#[test]
fn grid_membership() {
    let g = build_grid(3, &vec![(2, 0)]).unwrap();
    assert!(g.in_bounds((0, 0)));
    assert!(!g.in_bounds((3, 0)));
    assert!(!g.in_bounds((-1, 2)));
    assert!(g.is_free((1, 0)));
    assert!(!g.is_free((2, 0)));
    assert!(!g.is_free((0, 3)));
    let g = grid_from_cells(2, vec![true, false, false, true]).unwrap();
    assert!(g.is_free((0, 0)));
    assert!(!g.is_free((1, 0)));
    assert!(!g.is_free((0, 1)));
    assert!(g.is_free((1, 1)));
}

#[test]
fn generated_grid_has_some_obstructions() {
    let mut rng = StdRng::seed_from_u64(3);
    let g = generate_tile(30, &mut rng).unwrap();
    let free = free_cells(&g).len();
    assert!(free > 600 && free < 900, "free cells: {}", free);
    let mut again = StdRng::seed_from_u64(3);
    let h = generate_tile(30, &mut again).unwrap();
    assert_eq!(free_cells(&h), free_cells(&g));
}

#[test]
fn all_sources_fan_out() {
    let g = build_grid(4, &vec![(1, 1), (2, 3)]).unwrap();
    let fields = build_all_direction_fields(&g);
    let cells = free_cells(&g);
    assert_eq!(cells.len(), 14);
    assert_eq!(fields.len(), cells.len());
    for (f, s) in fields.iter().zip(cells.iter()) {
        assert_eq!(f.source(), *s);
        let single = get_distances(*s, &g).unwrap();
        for y in 0..4 {
            for x in 0..4 {
                assert_eq!(f.get((x, y)), single.get((x, y)));
            }
        }
    }
}

#[test]
fn cardinal_basics() {
    assert_eq!(Cardinal::U.inverse(), Cardinal::D);
    assert_eq!(Cardinal::R.inverse(), Cardinal::L);
    assert_eq!(Cardinal::D.inverse(), Cardinal::U);
    assert_eq!(Cardinal::L.inverse(), Cardinal::R);
    assert_eq!(Cardinal::U.delta(), (0, -1));
    assert_eq!(Cardinal::R.delta(), (1, 0));
    assert_eq!(Cardinal::D.delta(), (0, 1));
    assert_eq!(Cardinal::L.delta(), (-1, 0));
    assert_eq!(Cardinal::L.delta_from((3, 4)), (2, 4));
    assert_eq!(Cardinal::U.get_char_eq(), '↑');
    assert_eq!(Cardinal::R.get_char_eq(), '→');
    assert_eq!(Cardinal::D.get_char_eq(), '↓');
    assert_eq!(Cardinal::L.get_char_eq(), '←');
    assert_eq!(
        Cardinal::iter_all(),
        vec![Cardinal::U, Cardinal::R, Cardinal::D, Cardinal::L]
    );
    assert!(Cardinal::U < Cardinal::R && Cardinal::D < Cardinal::L);
}
