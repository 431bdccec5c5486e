use go_engine::{neighbors_coords, Color, Goban, Player, Stone};

fn stone(r: usize, c: usize, color: Color) -> Stone {
    Stone { coord: (r, c), color }
}

fn sorted(mut v: Vec<(usize, usize)>) -> Vec<(usize, usize)> {
    v.sort();
    v
}

fn coords(stones: &Vec<Stone>) -> Vec<(usize, usize)> {
    sorted(stones.iter().map(|s| s.coord).collect())
}

#[test]
fn opponent_of_each_color() {
    assert_eq!(Color::Black.opponent(), Color::White);
    assert_eq!(Color::White.opponent(), Color::Black);
    assert_eq!(Color::Empty.opponent(), Color::Empty);
}

#[test]
fn is_stone_only_for_black_and_white() {
    assert!(Color::Black.is_stone());
    assert!(Color::White.is_stone());
    assert!(!Color::Empty.is_stone());
}

#[test]
fn color_numbers() {
    assert_eq!(Color::Black.to_u8(), 0);
    assert_eq!(Color::White.to_u8(), 1);
    assert_eq!(Color::Empty.to_u8(), 2);
}

#[test]
fn player_color_and_not() {
    assert_eq!(Player::Black.color(), Color::Black);
    assert_eq!(Player::White.color(), Color::White);
    assert_eq!(!Player::Black, Player::White);
    assert_eq!(!Player::White, Player::Black);
}

#[test]
fn new_board_is_empty() {
    let g = Goban::new(3);
    assert_eq!(g.size, 3);
    assert_eq!(g.tab, vec![Color::Empty; 9]);
}

#[test]
fn coord_valid_inside_and_outside() {
    let g = Goban::new(3);
    assert!(g.coord_valid(&(0, 0)));
    assert!(g.coord_valid(&(2, 2)));
    assert!(!g.coord_valid(&(3, 0)));
    assert!(!g.coord_valid(&(0, 3)));
}

#[test]
fn push_places_on_empty_cell() {
    let mut g = Goban::new(3);
    assert_eq!(g.push((1, 2), Color::Black), Ok(()));
    assert_eq!(*g.index((1, 2)), Color::Black);
    assert_eq!(g.tab[5], Color::Black);
    assert_eq!(g.tab.iter().filter(|c| **c != Color::Empty).count(), 1);
}

#[test]
fn push_out_of_bounds_is_refused() {
    let mut g = Goban::new(3);
    assert_eq!(g.push((3, 0), Color::Black), Err("Out of bounds"));
    assert_eq!(g.push((0, 7), Color::White), Err("Out of bounds"));
    assert_eq!(g.tab, vec![Color::Empty; 9]);
}

#[test]
fn push_occupied_is_refused() {
    let mut g = Goban::new(3);
    assert_eq!(g.push((1, 1), Color::Black), Ok(()));
    assert_eq!(g.push((1, 1), Color::White), Err("Occupied"));
    assert_eq!(*g.index((1, 1)), Color::Black);
}

#[test]
fn set_overwrites_and_ignores_outside() {
    let mut g = Goban::new(2);
    g.set((0, 1), Color::White);
    g.set((0, 1), Color::Black);
    g.set((5, 5), Color::Black);
    assert_eq!(g.tab, vec![Color::Empty, Color::Black, Color::Empty, Color::Empty]);
}

#[test]
fn push_many_sets_every_listed_cell() {
    let mut g = Goban::new(2);
    g.push_many(&vec![(0, 0), (1, 1), (9, 9)], Color::White);
    assert_eq!(g.tab, vec![Color::White, Color::Empty, Color::Empty, Color::White]);
}

#[test]
fn neighbors_coords_in_the_middle() {
    assert_eq!(neighbors_coords(&(1, 1)), vec![(0, 1), (2, 1), (1, 0), (1, 2)]);
}

#[test]
fn neighbors_coords_at_the_origin() {
    assert_eq!(neighbors_coords(&(0, 0)), vec![(1, 0), (0, 1)]);
}

#[test]
fn get_neighbors_keeps_cells_on_the_board() {
    let mut g = Goban::new(3);
    g.set((0, 1), Color::Black);
    g.set((1, 2), Color::White);
    let n = g.get_neighbors(&(0, 2));
    assert_eq!(n, vec![stone(1, 2, Color::White), stone(0, 1, Color::Black)]);
    let m = g.get_neighbors(&(1, 1));
    assert_eq!(
        m,
        vec![
            stone(0, 1, Color::Black),
            stone(2, 1, Color::Empty),
            stone(1, 0, Color::Empty),
            stone(1, 2, Color::White),
        ]
    );
}

#[test]
fn dfs_finds_the_whole_group() {
    let mut g = Goban::new(4);
    for c in [(0, 0), (0, 1), (1, 1), (2, 1), (3, 3)] {
        g.set(c, Color::Black);
    }
    g.set((1, 0), Color::White);
    let group = g.dfs(&stone(0, 0, Color::Black));
    assert_eq!(group[0], stone(0, 0, Color::Black));
    assert_eq!(coords(&group), vec![(0, 0), (0, 1), (1, 1), (2, 1)]);
    assert!(group.iter().all(|s| s.color == Color::Black));
    let single = g.dfs(&stone(3, 3, Color::Black));
    assert_eq!(single, vec![stone(3, 3, Color::Black)]);
}

#[test]
fn dfs_same_group_from_any_member() {
    let mut g = Goban::new(4);
    for c in [(0, 0), (0, 1), (1, 1), (2, 1)] {
        g.set(c, Color::White);
    }
    let a = coords(&g.dfs(&stone(0, 0, Color::White)));
    let b = coords(&g.dfs(&stone(2, 1, Color::White)));
    assert_eq!(a, b);
    assert_eq!(a.len(), 4);
}

#[test]
fn dfs_of_empty_region() {
    let mut g = Goban::new(3);
    for c in [(0, 1), (1, 0), (1, 1), (1, 2), (2, 1)] {
        g.set(c, Color::Black);
    }
    let corner = g.dfs(&stone(0, 0, Color::Empty));
    assert_eq!(corner, vec![stone(0, 0, Color::Empty)]);
}

#[test]
fn has_liberty_looks_at_the_four_neighbours() {
    let mut g = Goban::new(3);
    g.set((0, 0), Color::Black);
    g.set((0, 1), Color::White);
    assert!(g.has_liberty(&stone(0, 0, Color::Black)));
    g.set((1, 0), Color::White);
    assert!(!g.has_liberty(&stone(0, 0, Color::Black)));
}

#[test]
fn group_liberties_lists_each_liberty_once() {
    let mut g = Goban::new(4);
    g.set((1, 1), Color::Black);
    g.set((1, 2), Color::Black);
    g.set((0, 1), Color::White);
    let group = g.dfs(&stone(1, 1, Color::Black));
    let libs = sorted(g.group_liberties(&group));
    assert_eq!(libs, vec![(0, 2), (1, 0), (1, 3), (2, 1), (2, 2)]);
}

#[test]
fn is_string_dead_when_no_liberty_is_left() {
    let mut g = Goban::new(3);
    g.set((0, 0), Color::Black);
    g.set((0, 1), Color::White);
    let group = g.dfs(&stone(0, 0, Color::Black));
    assert!(!g.is_string_dead(&group));
    g.set((1, 0), Color::White);
    assert!(g.is_string_dead(&group));
}

#[test]
fn dead_groups_are_found_once_each_in_row_order() {
    let mut g = Goban::new(4);
    // a dead black pair in the top left corner
    g.set((0, 0), Color::Black);
    g.set((0, 1), Color::Black);
    g.set((1, 0), Color::White);
    g.set((1, 1), Color::White);
    g.set((0, 2), Color::White);
    // a dead black stone in the bottom right corner
    g.set((3, 3), Color::Black);
    g.set((2, 3), Color::White);
    g.set((3, 2), Color::White);
    // a black stone with liberties
    g.set((3, 0), Color::Black);
    let dead = g.get_groups_of_stones_color_without_liberties(Color::Black);
    assert_eq!(dead.len(), 2);
    assert_eq!(dead[0][0], stone(0, 0, Color::Black));
    assert_eq!(coords(&dead[0]), vec![(0, 0), (0, 1)]);
    assert_eq!(dead[1], vec![stone(3, 3, Color::Black)]);
    assert!(g.get_groups_of_stones_color_without_liberties(Color::White).is_empty());
}

#[test]
fn remove_dead_takes_the_stones_off_and_counts_them() {
    let mut g = Goban::new(4);
    g.set((0, 0), Color::Black);
    g.set((0, 1), Color::Black);
    g.set((1, 0), Color::White);
    g.set((1, 1), Color::White);
    g.set((0, 2), Color::White);
    g.set((3, 0), Color::Black);
    let n = g.remove_dead(Color::Black);
    assert_eq!(n, 2);
    assert_eq!(*g.index((0, 0)), Color::Empty);
    assert_eq!(*g.index((0, 1)), Color::Empty);
    assert_eq!(*g.index((3, 0)), Color::Black);
    assert_eq!(*g.index((1, 1)), Color::White);
    assert_eq!(g.remove_dead(Color::Black), 0);
    assert_eq!(g.remove_dead(Color::White), 0);
}

#[test]
fn every_stone_lies_in_exactly_one_group() {
    let mut g = Goban::new(4);
    let black = [(0, 0), (0, 1), (2, 2), (3, 2), (3, 3)];
    let white = [(1, 0), (1, 1), (0, 3)];
    for c in black {
        g.set(c, Color::Black);
    }
    for c in white {
        g.set(c, Color::White);
    }
    let mut stones = Vec::new();
    for c in black {
        stones.push(stone(c.0, c.1, Color::Black));
    }
    for c in white {
        stones.push(stone(c.0, c.1, Color::White));
    }
    let groups = g.get_strings_from_stones(&stones);
    assert_eq!(groups.len(), 4);
    for s in &stones {
        let holders = groups.iter().filter(|grp| grp.contains(s)).count();
        assert_eq!(holders, 1);
    }
    let total: usize = groups.iter().map(|grp| grp.len()).sum();
    assert_eq!(total, stones.len());
}

#[test]
fn count_points_of_small_positions() {
    let g = Goban::new(3);
    assert_eq!(g.count_points(), (0, 0));
    let mut b = Goban::new(3);
    b.set((1, 1), Color::Black);
    assert_eq!(b.count_points(), (9, 0));
    b.set((0, 0), Color::White);
    assert_eq!(b.count_points(), (1, 1));
}

#[test]
fn count_points_with_territory_on_both_sides() {
    // a wall of black in column 1 and of white in column 3 of a 5x5 board
    let mut g = Goban::new(5);
    for r in 0..5 {
        g.set((r, 1), Color::Black);
        g.set((r, 3), Color::White);
    }
    assert_eq!(g.count_points(), (10, 10));
}

#[test]
fn reaches_tells_which_colours_a_region_touches() {
    let mut g = Goban::new(3);
    g.set((0, 1), Color::Black);
    g.set((2, 1), Color::White);
    let corner = g.dfs(&stone(0, 0, Color::Empty));
    assert_eq!(g.reaches(&corner), (true, true));
    let mut h = Goban::new(3);
    h.set((0, 1), Color::Black);
    h.set((1, 0), Color::Black);
    let lone = h.dfs(&stone(0, 0, Color::Empty));
    assert_eq!(h.reaches(&lone), (true, false));
}

#[test]
fn empty_points_row_by_row() {
    let mut g = Goban::new(2);
    g.set((0, 1), Color::Black);
    let pts = g.empty_points();
    assert_eq!(
        pts,
        vec![stone(0, 0, Color::Empty), stone(1, 0, Color::Empty), stone(1, 1, Color::Empty)]
    );
}

#[test]
fn board_clone_is_equal_and_independent() {
    let mut g = Goban::new(2);
    g.set((0, 0), Color::Black);
    let mut h = g.clone();
    assert_eq!(h.tab, g.tab);
    h.set((1, 1), Color::White);
    assert_eq!(*g.index((1, 1)), Color::Empty);
}
