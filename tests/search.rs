use dungeon::grid::{from_direction, manhattan, Direction, Dungeon, Point, State};
use dungeon::maze::MazeError;
use dungeon::search::{search_dungeon, Entry, Frontier, Outcome, Search};

fn load(text: &str) -> Dungeon {
    Dungeon::new(text).unwrap()
}

fn find(d: &Dungeon, s: State) -> Point {
    d.cells.iter().find(|f| f.state == s).unwrap().point
}

fn goal_cost(d: &Dungeon) -> Option<usize> {
    d.cells.iter().find(|f| f.state == State::Goal).unwrap().g_cost
}

/// Follows `path` from the start, checking each cell entered, and returns where it ends.
fn follow(d: &Dungeon, path: &[Direction]) -> Point {
    let mut p = find(d, State::Start);
    for &dir in path {
        let (dx, dy) = from_direction(dir);
        let x = p.x as isize + dx;
        let y = p.y as isize + dy;
        assert!(x >= 0 && y >= 0 && (x as usize) < d.width && (y as usize) < d.height);
        p = Point { x: x as usize, y: y as usize };
        assert_ne!(d.cells[p.y * d.width + p.x].state, State::Wall);
    }
    p
}

#[test]
fn straight_corridor() {
    let (path, d) = search_dungeon(load("S G"));
    assert_eq!(path, Some(vec![Direction::Right, Direction::Right]));
    assert_eq!(goal_cost(&d), Some(2));
}

#[test]
fn diagonal_walls_unreachable() {
    let (path, d) = search_dungeon(load("S*\n*G"));
    assert_eq!(path, None);
    assert_eq!(goal_cost(&d), None);
}

#[test]
fn wall_in_row_unreachable() {
    let (path, _) = search_dungeon(load("S*G"));
    assert_eq!(path, None);
    let (path, _) = search_dungeon(load("S\n*\n*\nG"));
    assert_eq!(path, None);
}

#[test]
fn detour_around_wall() {
    let (path, d) = search_dungeon(load("S  \n * \n G "));
    let path = path.unwrap();
    assert_eq!(path.len(), 3);
    assert_eq!(follow(&d, &path), find(&d, State::Goal));
    assert_eq!(goal_cost(&d), Some(3));
}

#[test]
fn forced_long_detour() {
    let text = "S*G\n * \n   ";
    let (path, d) = search_dungeon(load(text));
    let path = path.unwrap();
    assert_eq!(path.len(), 6);
    assert_eq!(follow(&d, &path), find(&d, State::Goal));
    assert_eq!(goal_cost(&d), Some(6));
}

#[test]
fn open_grid_path_is_manhattan() {
    let text = "S    \n     \n     \n    G";
    let (path, d) = search_dungeon(load(text));
    let path = path.unwrap();
    let s = find(&d, State::Start);
    let g = find(&d, State::Goal);
    assert_eq!(path.len(), manhattan(&s, &g));
    assert_eq!(path.len(), 7);
    assert_eq!(follow(&d, &path), g);
    assert_eq!(goal_cost(&d), Some(path.len()));
}

#[test]
fn open_grid_goal_left_of_start() {
    let (path, d) = search_dungeon(load("   \nG S\n   "));
    let path = path.unwrap();
    assert_eq!(path, vec![Direction::Left, Direction::Left]);
    assert_eq!(goal_cost(&d), Some(2));
}

#[test]
fn path_avoids_walls_and_matches_goal_cost() {
    let text = "S  *    \n** * ** \n   *  * \n *** *  \n     *G ";
    let (path, d) = search_dungeon(load(text));
    let path = path.unwrap();
    assert_eq!(follow(&d, &path), find(&d, State::Goal));
    assert_eq!(goal_cost(&d), Some(path.len()));
}

#[test]
fn search_is_deterministic() {
    let text = "S    \n  *  \n     \n    G";
    let (a, _) = search_dungeon(load(text));
    let (b, _) = search_dungeon(load(text));
    assert_eq!(a, b);
    let (again, _) = search_dungeon(search_dungeon(load(text)).1);
    assert_eq!(a, again);
}

#[test]
fn invalid_character_reports_position() {
    match Dungeon::new("S  \n x \n  G") {
        Err(MazeError::InvalidCharacter { line, column, found }) => {
            assert_eq!((line, column, found), (1, 1, 'x'));
        }
        _ => panic!("expected an invalid character"),
    }
    assert_eq!(
        Dungeon::new("S#G").err(),
        Some(MazeError::InvalidCharacter { line: 0, column: 1, found: '#' })
    );
}

#[test]
fn two_starts_or_none_is_invalid() {
    assert_eq!(Dungeon::new("S SG").err(), Some(MazeError::InvalidMaze { starts: 2, goals: 1 }));
    assert_eq!(Dungeon::new("  G").err(), Some(MazeError::InvalidMaze { starts: 0, goals: 1 }));
    assert_eq!(Dungeon::new("S  ").err(), Some(MazeError::InvalidMaze { starts: 1, goals: 0 }));
}

#[test]
fn single_cell_is_invalid() {
    assert_eq!(Dungeon::new("S").err(), Some(MazeError::InvalidMaze { starts: 1, goals: 0 }));
    assert_eq!(Dungeon::new("G").err(), Some(MazeError::InvalidMaze { starts: 0, goals: 1 }));
    assert_eq!(Dungeon::new("").err(), Some(MazeError::InvalidMaze { starts: 0, goals: 0 }));
}

#[test]
fn ragged_rows_are_refused() {
    assert_eq!(Dungeon::new("S  \n G").err(), Some(MazeError::RaggedRow { line: 1 }));
    assert_eq!(Dungeon::new("S G\n\n").err(), Some(MazeError::RaggedRow { line: 1 }));
}

#[test]
fn load_reports_true_size() {
    let d = load("S  \n * \n  G\n");
    assert_eq!((d.width, d.height), (3, 3));
    assert_eq!(d.cells.len(), 9);
    assert_eq!(d.cells[4].state, State::Wall);
    assert_eq!(d.cells[4].point, Point { x: 1, y: 1 });
    assert_eq!(d.cells[8].state, State::Goal);
    assert!(d.cells.iter().all(|f| f.g_cost.is_none() && f.f_cost.is_none()));
}

#[test]
fn direction_offsets() {
    assert_eq!(from_direction(Direction::Up), (0, -1));
    assert_eq!(from_direction(Direction::Down), (0, 1));
    assert_eq!(from_direction(Direction::Left), (-1, 0));
    assert_eq!(from_direction(Direction::Right), (1, 0));
    assert_eq!(from_direction(Direction::N), (0, 0));
}

#[test]
fn manhattan_distance() {
    assert_eq!(manhattan(&Point { x: 1, y: 5 }, &Point { x: 4, y: 2 }), 6);
    assert_eq!(manhattan(&Point { x: 3, y: 3 }, &Point { x: 3, y: 3 }), 0);
}

#[test]
fn neighbours_stay_inside() {
    let d = load("S  \n   \n  G");
    assert_eq!(d.next_point(Point { x: 0, y: 0 }), vec![Point { x: 0, y: 1 }, Point { x: 1, y: 0 }]);
    assert_eq!(d.next_point(Point { x: 1, y: 1 }).len(), 4);
    assert_eq!(d.next_point(Point { x: 2, y: 2 }), vec![Point { x: 2, y: 1 }, Point { x: 1, y: 2 }]);
    assert!(d.is_inside(&Point { x: 2, y: 2 }));
    assert!(!d.is_inside(&Point { x: 3, y: 0 }));
    assert_eq!(d.step(Point { x: 0, y: 0 }, Direction::Up), None);
    assert_eq!(d.step(Point { x: 0, y: 0 }, Direction::Right), Some(Point { x: 1, y: 0 }));
}

#[test]
fn frontier_pops_lowest_cost_then_earliest() {
    let mut f = Frontier::new();
    f.push(Entry { f: 5, h: 1, index: 0 });
    f.push(Entry { f: 3, h: 2, index: 1 });
    f.push(Entry { f: 3, h: 1, index: 2 });
    f.push(Entry { f: 3, h: 1, index: 3 });
    assert_eq!(f.pop_min().index, 2);
    assert_eq!(f.pop_min().index, 3);
    assert_eq!(f.pop_min().index, 1);
    assert_eq!(f.pop_min().index, 0);
    assert!(f.is_empty());
}

#[test]
fn stepwise_search_reaches_goal() {
    let mut s = Search::new(load("S G"));
    let mut steps = 0;
    loop {
        match s.step() {
            Outcome::Running => steps += 1,
            Outcome::Reached(path) => {
                assert_eq!(path, vec![Direction::Right, Direction::Right]);
                break;
            }
            Outcome::Unreachable => panic!("goal is reachable"),
        }
    }
    assert_eq!(steps, 2);
    assert_eq!(goal_cost(&s.into_dungeon()), Some(2));
}

#[test]
fn detour_around_wall_below_start() {
    let (path, d) = search_dungeon(load(" S \n * \n G "));
    let path = path.unwrap();
    assert_eq!(path.len(), 4);
    assert_ne!(path, vec![Direction::Down, Direction::Down]);
    assert_eq!(follow(&d, &path), find(&d, State::Goal));
    assert_eq!(goal_cost(&d), Some(4));
}

#[test]
fn crlf_line_ends_load() {
    let d = load("S  \r\n * \r\n  G\r\n");
    assert_eq!((d.width, d.height), (3, 3));
    let (path, _) = search_dungeon(d);
    assert_eq!(path.map(|p| p.len()), Some(4));
    let d = load("S G\r");
    assert_eq!((d.width, d.height), (3, 1));
}

#[test]
fn stray_carriage_return_is_invalid() {
    assert_eq!(
        Dungeon::new("S\r G").err(),
        Some(MazeError::InvalidCharacter { line: 0, column: 1, found: '\r' })
    );
}
