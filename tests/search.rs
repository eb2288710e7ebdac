use astar_grid::cost::{cost_less_than, Estimate};
use astar_grid::grid::{Grid, Node};
use astar_grid::location::Location;

fn marked(grid: &Grid) -> Vec<(i32, i32)> {
    let mut out = Vec::new();
    for y in 0..grid.get_height() {
        for x in 0..grid.get_width() {
            let n: &Node = grid.get_node(Location(x, y));
            if n.is_path {
                out.push((x, y));
            }
        }
    }
    out
}

fn count_visited(grid: &Grid) -> usize {
    let mut c = 0;
    for y in 0..grid.get_height() {
        for x in 0..grid.get_width() {
            if grid.get_node(Location(x, y)).visited {
                c += 1;
            }
        }
    }
    c
}

#[test]
fn node_positions_match_coordinates() {
    for (w, h) in [(1, 1), (3, 5), (7, 2), (10, 10)] {
        let grid = Grid::new(w, h);
        assert_eq!(grid.get_width(), w);
        assert_eq!(grid.get_height(), h);
        for y in 0..h {
            for x in 0..w {
                assert_eq!(grid.get_node(Location(x, y)).loc, Location(x, y));
            }
        }
    }
}

#[test]
fn new_node_is_clear() {
    let n = Node::new(4, 9);
    assert_eq!(n.loc, Location(4, 9));
    assert_eq!(n.cost_so_far(), None);
    assert_eq!(n.estimated_total(), None);
    assert_eq!(n.predecessor(), None);
    assert!(!n.visited && !n.is_wall && !n.is_path);
}

#[test]
fn distance_values() {
    assert_eq!(Location::dist(Location(0, 0), Location(3, 4)).squared, 25);
    assert_eq!(Location::dist(Location(3, 4), Location(0, 0)).squared, 25);
    assert_eq!(Location::dist(Location(2, 7), Location(2, 7)).squared, 0);
    assert_eq!(Location::dist(Location(1, 2), Location(2, 1)).squared, 2);
    assert!(Location::dist(Location(1, 2), Location(1, 3)).squared > 0);
}

#[test]
fn estimate_order_matches_real_numbers() {
    let steps = [0u64, 1, 2, 3, 5, 8];
    let squares = [0u64, 1, 2, 4, 5, 8, 9, 13, 25];
    for &a in &steps {
        for &p in &squares {
            for &b in &steps {
                for &q in &squares {
                    let x = Estimate { steps: a, dist_sq: p };
                    let y = Estimate { steps: b, dist_sq: q };
                    let real = (a as f64) + (p as f64).sqrt() < (b as f64) + (q as f64).sqrt() - 1e-9;
                    assert_eq!(x.less_than(&y), real, "{:?} {:?}", x, y);
                }
            }
        }
    }
}

#[test]
fn unknown_cost_is_infinite() {
    let e = Some(Estimate { steps: 3, dist_sq: 2 });
    assert!(cost_less_than(&e, &None));
    assert!(!cost_less_than(&None, &e));
    assert!(!cost_less_than(&None, &None));
}

#[test]
fn open_grid_path_has_manhattan_length() {
    let pairs = [((0, 0), (4, 3)), ((4, 3), (0, 0)), ((2, 0), (2, 3)), ((0, 1), (4, 1)), ((3, 2), (1, 0))];
    for (s, d) in pairs {
        let mut grid = Grid::new(5, 4);
        let found = grid.a_star(Location(s.0, s.1), Location(d.0, d.1));
        assert!(found);
        let cells = marked(&grid);
        let manhattan = ((s.0 - d.0).abs() + (s.1 - d.1).abs()) as usize;
        assert_eq!(cells.len(), manhattan);
        assert!(cells.contains(&d));
        assert!(!cells.contains(&s));
    }
}

#[test]
fn search_to_itself_marks_nothing() {
    let mut grid = Grid::new(4, 4);
    assert!(grid.a_star(Location(2, 1), Location(2, 1)));
    assert!(marked(&grid).is_empty());
    assert_eq!(count_visited(&grid), 0);
}

#[test]
fn reset_clears_search_state_and_keeps_walls() {
    let mut grid = Grid::new(6, 6);
    grid.randomize_walls(30);
    let walls: Vec<bool> = (0..36).map(|i| grid.get_node(Location(i % 6, i / 6)).is_wall).collect();
    grid.reset();
    grid.a_star(Location(0, 0), Location(5, 5));
    grid.reset();
    for i in 0..36 {
        let n = grid.get_node(Location(i % 6, i / 6));
        assert_eq!(n.is_wall, walls[i as usize]);
        assert!(!n.visited && !n.is_path);
        assert_eq!(n.cost_so_far(), None);
        assert_eq!(n.estimated_total(), None);
        assert_eq!(n.predecessor(), None);
    }
}

#[test]
fn walled_in_destination_is_not_found() {
    let mut grid = Grid::new(5, 5);
    grid.randomize_walls(100);
    assert!(!grid.a_star(Location(0, 0), Location(4, 4)));
    assert!(marked(&grid).is_empty());
}

#[test]
fn three_by_three_corner_to_corner() {
    let mut grid = Grid::new(3, 3);
    assert!(grid.a_star(Location(0, 0), Location(2, 2)));
    assert_eq!(marked(&grid), vec![(0, 1), (1, 1), (1, 2), (2, 2)]);
    let n = grid.get_node(Location(2, 2));
    assert_eq!(n.cost_so_far(), Some(4));
    assert_eq!(n.predecessor(), Some(Location(1, 2)));
    assert!(grid.get_node(Location(0, 0)).visited);
}

#[test]
fn repeated_search_gives_same_path() {
    let mut grid = Grid::new(12, 9);
    grid.randomize_walls(25);
    grid.reset();
    let s = Location(0, 0);
    let d = Location(11, 8);
    let first = grid.a_star(s, d);
    let first_cells = marked(&grid);
    grid.reset();
    let second = grid.a_star(s, d);
    assert_eq!(first, second);
    assert_eq!(first_cells, marked(&grid));
}

#[test]
fn wall_chances_at_the_extremes() {
    let mut none = Grid::new(8, 8);
    none.randomize_walls(0);
    let mut all = Grid::new(8, 8);
    all.randomize_walls(100);
    for y in 0..8 {
        for x in 0..8 {
            assert!(!none.get_node(Location(x, y)).is_wall);
            assert!(all.get_node(Location(x, y)).is_wall);
        }
    }
}

#[test]
fn text_dump_rows() {
    let mut grid = Grid::new(3, 2);
    assert!(grid.a_star(Location(0, 0), Location(2, 0)));
    let text: String = grid.text_dump().into_iter().collect();
    assert_eq!(text, ".xx\n...\n");
    let mut walls = Grid::new(2, 2);
    walls.randomize_walls(100);
    let text: String = walls.text_dump().into_iter().collect();
    assert_eq!(text, "--\n--\n");
}

#[test]
fn wall_rolls_set_walls_at_or_below_chance() {
    let mut grid = Grid::new(3, 2);
    grid.apply_wall_rolls(&vec![1, 50, 51, 100, 30, 31], 30);
    let walls: Vec<bool> = (0..6).map(|i| grid.get_node(Location(i % 3, i / 3)).is_wall).collect();
    assert_eq!(walls, vec![true, false, false, false, true, false]);
    grid.apply_wall_rolls(&vec![100, 100, 100, 100, 100, 100], 0);
    assert!(grid.get_node(Location(0, 0)).is_wall);
    assert!(!grid.get_node(Location(1, 0)).is_wall);
}

#[test]
fn distance_with_negative_coordinates() {
    assert_eq!(Location::dist(Location(-1, 0), Location(0, 0)).squared, 1);
    assert_eq!(Location::dist(Location(-3, -4), Location(0, 0)).squared, 25);
    assert_eq!(Location::dist(Location(i32::MIN, 0), Location(i32::MAX, 0)).squared, 0xFFFF_FFFF_u64 * 0xFFFF_FFFF_u64);
}

#[test]
fn zero_width_grid_dumps_empty_lines() {
    let grid = Grid::new(0, 3);
    let text: String = grid.text_dump().into_iter().collect();
    assert_eq!(text, "\n\n\n");
}

#[test]
fn long_single_row_grid() {
    let mut grid = Grid::new(40000, 1);
    assert!(grid.a_star(Location(0, 0), Location(39999, 0)));
    assert_eq!(marked(&grid).len(), 39999);
}

#[test]
fn start_costs_after_search() {
    let mut grid = Grid::new(4, 3);
    assert!(grid.a_star(Location(1, 1), Location(3, 2)));
    let s = grid.get_node(Location(1, 1));
    assert_eq!(s.cost_so_far(), Some(0));
    assert_eq!(s.estimated_total(), Some(Estimate { steps: 0, dist_sq: 5 }));
    assert!(s.visited);
    assert!(!grid.get_node(Location(3, 2)).visited);
}
